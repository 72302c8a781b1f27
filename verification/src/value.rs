//! Runtime values, variable scopes and their rendering.
//!
//! Values feed the template engine's context and live in the execution
//! context. A decimal number with a fractional part is carried as its decimal
//! text: it can be stored, listed, rendered and tested for truthiness.
//! Arithmetic, ordering and negation are defined on integers only: an
//! operation with a decimal operand is refused with a type error.

use vstd::prelude::*;

use crate::ast::{BinaryOp, Expr, StringPart, UnaryOp};
use crate::source::Spanned;
use crate::text::{append_string, int_text, push_char, push_int, push_str, string_from_range};

verus! {

/// A runtime value.
#[derive(Debug, PartialEq)]
pub enum Value {
    /// Absent / unset.
    Null,
    Bool(bool),
    Int(i64),
    /// A decimal number, as its decimal text.
    Float(String),
    Str(String),
    List(Vec<Value>),
    /// A map from names to values; later entries win over earlier ones with
    /// the same name.
    Object(Vec<(String, Value)>),
}

/// The mathematical model of a [`Value`].
pub enum ValueV {
    Null,
    Bool(bool),
    Int(i64),
    Float(Seq<char>),
    Str(Seq<char>),
    List(Seq<ValueV>),
    Object(Seq<(Seq<char>, ValueV)>),
}

impl Value {
    pub open spec fn view(&self) -> ValueV
        decreases self,
    {
        match self {
            Value::Null => ValueV::Null,
            Value::Bool(b) => ValueV::Bool(*b),
            Value::Int(n) => ValueV::Int(*n),
            Value::Float(t) => ValueV::Float(t@),
            Value::Str(s) => ValueV::Str(s@),
            Value::List(v) => ValueV::List(
                Seq::new(
                    v@.len(),
                    |i: int|
                        if 0 <= i < v@.len() {
                            v@[i].view()
                        } else {
                            ValueV::Null
                        },
                ),
            ),
            Value::Object(v) => ValueV::Object(
                Seq::new(
                    v@.len(),
                    |i: int|
                        if 0 <= i < v@.len() {
                            (v@[i].0@, v@[i].1.view())
                        } else {
                            (Seq::empty(), ValueV::Null)
                        },
                ),
            ),
        }
    }
}

/// Truthiness used by `{% if %}` and `if`/`until` conditions: null, empty and
/// false are false; every other value — including numeric zero — is true.
pub open spec fn spec_truthy(v: ValueV) -> bool {
    match v {
        ValueV::Null => false,
        ValueV::Bool(b) => b,
        ValueV::Int(_) => true,
        ValueV::Float(_) => true,
        ValueV::Str(s) => s.len() > 0,
        ValueV::List(l) => l.len() > 0,
        ValueV::Object(o) => o.len() > 0,
    }
}

/// The text of a boolean.
pub open spec fn bool_text(b: bool) -> Seq<char> {
    if b {
        "true"@
    } else {
        "false"@
    }
}

/// The plain-text rendering used by `{{ }}` interpolation: lists are joined
/// by `", "`, objects are written as JSON.
pub open spec fn spec_render(v: ValueV) -> Seq<char>
    decreases v,
{
    match v {
        ValueV::Null => Seq::empty(),
        ValueV::Bool(b) => bool_text(b),
        ValueV::Int(n) => int_text(n as int),
        ValueV::Float(t) => t,
        ValueV::Str(s) => s,
        ValueV::List(l) => render_join(l),
        ValueV::Object(_) => spec_json(v),
    }
}

/// The renderings of `l`, separated by `", "`.
pub open spec fn render_join(l: Seq<ValueV>) -> Seq<char>
    decreases l,
{
    if l.len() == 0 {
        Seq::empty()
    } else if l.len() == 1 {
        spec_render(l[0])
    } else {
        render_join(l.drop_last()) + ", "@ + spec_render(l.last())
    }
}

/// A JSON string literal for `s`: quoted, with `"`, `\` and control
/// characters escaped.
pub open spec fn json_string(s: Seq<char>) -> Seq<char> {
    seq!['"'] + json_escape(s) + seq!['"']
}

pub open spec fn json_escape(s: Seq<char>) -> Seq<char>
    decreases s.len(),
{
    if s.len() == 0 {
        Seq::empty()
    } else {
        json_escape(s.drop_last()) + json_escape_char(s.last())
    }
}

pub open spec fn hex_digit(d: nat) -> char {
    if d < 10 {
        crate::text::digit_char(d)
    } else if d == 10 {
        'a'
    } else if d == 11 {
        'b'
    } else if d == 12 {
        'c'
    } else if d == 13 {
        'd'
    } else if d == 14 {
        'e'
    } else {
        'f'
    }
}

pub open spec fn json_escape_char(c: char) -> Seq<char> {
    if c == '"' {
        seq!['\\', '"']
    } else if c == '\\' {
        seq!['\\', '\\']
    } else if c == '\n' {
        seq!['\\', 'n']
    } else if c == '\r' {
        seq!['\\', 'r']
    } else if c == '\t' {
        seq!['\\', 't']
    } else if (c as u32) == 8 {
        seq!['\\', 'b']
    } else if (c as u32) == 12 {
        seq!['\\', 'f']
    } else if (c as u32) < 0x20 {
        seq!['\\', 'u', '0', '0', hex_digit(((c as u32) / 16) as nat), hex_digit(((c as u32) % 16) as nat)]
    } else {
        seq![c]
    }
}

/// The JSON serialisation of a value, each variant tagged by name: `"Null"`,
/// `{"Int":5}`, `{"Str":"x"}`, `{"List":[...]}`, `{"Object":{"k":...}}`.
pub open spec fn spec_json(v: ValueV) -> Seq<char>
    decreases v,
{
    match v {
        ValueV::Null => "\"Null\""@,
        ValueV::Bool(b) => "{\"Bool\":"@ + bool_text(b) + "}"@,
        ValueV::Int(n) => "{\"Int\":"@ + int_text(n as int) + "}"@,
        ValueV::Float(t) => "{\"Float\":"@ + t + "}"@,
        ValueV::Str(s) => "{\"Str\":"@ + json_string(s) + "}"@,
        ValueV::List(l) => "{\"List\":["@ + json_list(l) + "]}"@,
        ValueV::Object(o) => "{\"Object\":{"@ + json_members(o) + "}}"@,
    }
}

pub open spec fn json_list(l: Seq<ValueV>) -> Seq<char>
    decreases l,
{
    if l.len() == 0 {
        Seq::empty()
    } else if l.len() == 1 {
        spec_json(l[0])
    } else {
        json_list(l.drop_last()) + ","@ + spec_json(l.last())
    }
}

pub open spec fn json_members(o: Seq<(Seq<char>, ValueV)>) -> Seq<char>
    decreases o,
{
    if o.len() == 0 {
        Seq::empty()
    } else if o.len() == 1 {
        json_string(o[0].0) + ":"@ + spec_json(o[0].1)
    } else {
        json_members(o.drop_last()) + ","@ + json_string(o.last().0) + ":"@ + spec_json(o.last().1)
    }
}

/// A copy of a value.
#[verifier::loop_isolation(false)]
pub fn dup_value(v: &Value) -> (r: Value)
    ensures
        r.view() == v.view(),
    decreases v,
{
    match v {
        Value::Null => Value::Null,
        Value::Bool(b) => Value::Bool(*b),
        Value::Int(n) => Value::Int(*n),
        Value::Float(t) => Value::Float(t.clone()),
        Value::Str(s) => Value::Str(s.clone()),
        Value::List(xs) => {
            let mut out: Vec<Value> = Vec::new();
            let mut k: usize = 0;
            while k < xs.len()
                invariant
                    k <= xs.len(),
                    out@.len() == k,
                    forall|j: int| 0 <= j < k ==> (#[trigger] out@[j]).view() == xs@[j].view(),
                decreases xs.len() - k,
            {
                let y = dup_value(&xs[k]);
                out.push(y);
                k = k + 1;
            }
            let r = Value::List(out);
            assert(r.view()->List_0 =~= v.view()->List_0);
            r
        },
        Value::Object(xs) => {
            let mut out: Vec<(String, Value)> = Vec::new();
            let mut k: usize = 0;
            while k < xs.len()
                invariant
                    k <= xs.len(),
                    out@.len() == k,
                    forall|j: int|
                        0 <= j < k ==> (#[trigger] out@[j]).0@ == xs@[j].0@ && out@[j].1.view()
                            == xs@[j].1.view(),
                decreases xs.len() - k,
            {
                let y = dup_value(&xs[k].1);
                out.push((xs[k].0.clone(), y));
                k = k + 1;
            }
            let r = Value::Object(out);
            assert(r.view()->Object_0 =~= v.view()->Object_0);
            r
        },
    }
}

impl Value {
    /// Truthiness: null, empty and false are false; everything else,
    /// including numeric zero, is true.
    pub fn truthy(&self) -> (r: bool)
        ensures
            r == spec_truthy(self.view()),
    {
        match self {
            Value::Null => false,
            Value::Bool(b) => *b,
            Value::Int(_) | Value::Float(_) => true,
            Value::Str(s) => s.as_str().unicode_len() > 0,
            Value::List(v) => v.len() > 0,
            Value::Object(v) => v.len() > 0,
        }
    }

    /// Render to plain text for `{{ }}` interpolation.
    pub fn render(&self) -> (r: String)
        ensures
            r@ == spec_render(self.view()),
    {
        let mut s = String::new();
        push_render(&mut s, self);
        s
    }
}

fn push_bool(s: &mut String, b: bool)
    ensures
        final(s)@ == old(s)@ + bool_text(b),
{
    if b {
        push_str(s, "true");
    } else {
        push_str(s, "false");
    }
}

/// Append the rendering of `v` to `s`.
#[verifier::loop_isolation(false)]
pub fn push_render(s: &mut String, v: &Value)
    ensures
        final(s)@ == old(s)@ + spec_render(v.view()),
    decreases v,
{
    match v {
        Value::Null => {
            assert(final(s)@ =~= old(s)@ + spec_render(v.view()));
        },
        Value::Bool(b) => push_bool(s, *b),
        Value::Int(n) => push_int(s, *n),
        Value::Float(t) => append_string(s, t),
        Value::Str(t) => append_string(s, t),
        Value::List(xs) => {
            let ghost l = v.view()->List_0;
            let mut k: usize = 0;
            while k < xs.len()
                invariant
                    k <= xs.len(),
                    l.len() == xs@.len(),
                    s@ == old(s)@ + render_join(l.take(k as int)),
                decreases xs.len() - k,
            {
                let ghost before = s@;
                if k > 0 {
                    push_str(s, ", ");
                }
                push_render(s, &xs[k]);
                proof {
                    let t = l.take(k + 1);
                    assert(t.drop_last() =~= l.take(k as int));
                    assert(t.last() == xs@[k as int].view());
                    if k == 0 {
                        assert(l.take(0) =~= Seq::<ValueV>::empty());
                        assert(render_join(l.take(0)) =~= Seq::<char>::empty());
                        assert(s@ =~= old(s)@ + render_join(t));
                    } else {
                        assert(s@ =~= old(s)@ + render_join(t));
                    }
                }
                k = k + 1;
            }
            assert(l.take(xs.len() as int) =~= l);
        },
        Value::Object(_) => push_json(s, v),
    }
}

fn push_hex(s: &mut String, d: u32)
    requires
        d < 16,
    ensures
        final(s)@ == old(s)@.push(hex_digit(d as nat)),
{
    let c = if d == 0 {
        '0'
    } else if d == 1 {
        '1'
    } else if d == 2 {
        '2'
    } else if d == 3 {
        '3'
    } else if d == 4 {
        '4'
    } else if d == 5 {
        '5'
    } else if d == 6 {
        '6'
    } else if d == 7 {
        '7'
    } else if d == 8 {
        '8'
    } else if d == 9 {
        '9'
    } else if d == 10 {
        'a'
    } else if d == 11 {
        'b'
    } else if d == 12 {
        'c'
    } else if d == 13 {
        'd'
    } else if d == 14 {
        'e'
    } else {
        'f'
    };
    push_char(s, c);
}

fn push_json_string(s: &mut String, t: &String)
    ensures
        final(s)@ == old(s)@ + json_string(t@),
{
    let chars = crate::text::str_chars(t.as_str());
    push_char(s, '"');
    let mut k: usize = 0;
    while k < chars.len()
        invariant
            chars@ == t@,
            k <= chars.len(),
            s@ == old(s)@ + seq!['"'] + json_escape(chars@.take(k as int)),
        decreases chars.len() - k,
    {
        let c = chars[k];
        let ghost before = s@;
        let v = c as u32;
        if c == '"' {
            push_char(s, '\\');
            push_char(s, '"');
        } else if c == '\\' {
            push_char(s, '\\');
            push_char(s, '\\');
        } else if c == '\n' {
            push_char(s, '\\');
            push_char(s, 'n');
        } else if c == '\r' {
            push_char(s, '\\');
            push_char(s, 'r');
        } else if c == '\t' {
            push_char(s, '\\');
            push_char(s, 't');
        } else if v == 8 {
            push_char(s, '\\');
            push_char(s, 'b');
        } else if v == 12 {
            push_char(s, '\\');
            push_char(s, 'f');
        } else if v < 0x20 {
            push_char(s, '\\');
            push_char(s, 'u');
            push_char(s, '0');
            push_char(s, '0');
            push_hex(s, v / 16);
            push_hex(s, v % 16);
        } else {
            push_char(s, c);
        }
        proof {
            let tk = chars@.take(k + 1);
            assert(tk.drop_last() =~= chars@.take(k as int));
            assert(tk.last() == c);
            assert(s@ =~= before + json_escape_char(c));
            assert(s@ =~= old(s)@ + seq!['"'] + json_escape(tk));
        }
        k = k + 1;
    }
    push_char(s, '"');
    assert(chars@.take(chars.len() as int) =~= chars@);
    assert(s@ =~= old(s)@ + json_string(t@));
}

/// Append the JSON serialisation of `v` to `s`.
#[verifier::loop_isolation(false)]
pub fn push_json(s: &mut String, v: &Value)
    ensures
        final(s)@ == old(s)@ + spec_json(v.view()),
    decreases v,
{
    match v {
        Value::Null => push_str(s, "\"Null\""),
        Value::Bool(b) => {
            push_str(s, "{\"Bool\":");
            push_bool(s, *b);
            push_str(s, "}");
            assert(s@ =~= old(s)@ + spec_json(v.view()));
        },
        Value::Int(n) => {
            push_str(s, "{\"Int\":");
            push_int(s, *n);
            push_str(s, "}");
            assert(s@ =~= old(s)@ + spec_json(v.view()));
        },
        Value::Float(t) => {
            push_str(s, "{\"Float\":");
            append_string(s, t);
            push_str(s, "}");
            assert(s@ =~= old(s)@ + spec_json(v.view()));
        },
        Value::Str(t) => {
            push_str(s, "{\"Str\":");
            push_json_string(s, t);
            push_str(s, "}");
            assert(s@ =~= old(s)@ + spec_json(v.view()));
        },
        Value::List(xs) => {
            push_str(s, "{\"List\":[");
            let ghost mid = s@;
            let ghost l = v.view()->List_0;
            let mut k: usize = 0;
            while k < xs.len()
                invariant
                    k <= xs.len(),
                    l.len() == xs@.len(),
                    s@ == mid + json_list(l.take(k as int)),
                decreases xs.len() - k,
            {
                if k > 0 {
                    push_str(s, ",");
                }
                push_json(s, &xs[k]);
                proof {
                    let t = l.take(k + 1);
                    assert(t.drop_last() =~= l.take(k as int));
                    assert(t.last() == xs@[k as int].view());
                    if k == 0 {
                        assert(l.take(0) =~= Seq::<ValueV>::empty());
                        assert(s@ =~= mid + json_list(t));
                    } else {
                        assert(s@ =~= mid + json_list(t));
                    }
                }
                k = k + 1;
            }
            assert(l.take(xs.len() as int) =~= l);
            push_str(s, "]}");
            assert(s@ =~= old(s)@ + spec_json(v.view()));
        },
        Value::Object(xs) => {
            push_str(s, "{\"Object\":{");
            let ghost mid = s@;
            let ghost o = v.view()->Object_0;
            let mut k: usize = 0;
            while k < xs.len()
                invariant
                    k <= xs.len(),
                    o.len() == xs@.len(),
                    s@ == mid + json_members(o.take(k as int)),
                decreases xs.len() - k,
            {
                if k > 0 {
                    push_str(s, ",");
                }
                push_json_string(s, &xs[k].0);
                push_str(s, ":");
                push_json(s, &xs[k].1);
                proof {
                    let t = o.take(k + 1);
                    assert(t.drop_last() =~= o.take(k as int));
                    assert(t.last() == (xs@[k as int].0@, xs@[k as int].1.view()));
                    if k == 0 {
                        assert(o.take(0) =~= Seq::<(Seq<char>, ValueV)>::empty());
                        assert(s@ =~= mid + json_members(t));
                    } else {
                        assert(s@ =~= mid + json_members(t));
                    }
                }
                k = k + 1;
            }
            assert(o.take(xs.len() as int) =~= o);
            push_str(s, "}}");
            assert(s@ =~= old(s)@ + spec_json(v.view()));
        },
    }
}


// ---- variable scopes ----

/// The map an association list denotes: later entries win.
pub open spec fn map_of(s: Seq<(String, Value)>) -> Map<Seq<char>, ValueV>
    decreases s.len(),
{
    if s.len() == 0 {
        Map::empty()
    } else {
        map_of(s.drop_last()).insert(s.last().0@, s.last().1.view())
    }
}

proof fn lemma_map_of_absent(s: Seq<(String, Value)>, k: Seq<char>)
    requires
        forall|i: int| 0 <= i < s.len() ==> (#[trigger] s[i]).0@ != k,
    ensures
        !map_of(s).contains_key(k),
    decreases s.len(),
{
    if s.len() > 0 {
        assert(forall|i: int| 0 <= i < s.len() - 1 ==> s.drop_last()[i] == s[i]);
        lemma_map_of_absent(s.drop_last(), k);
        assert(s[s.len() - 1].0@ != k);
    }
}

proof fn lemma_map_of_last(s: Seq<(String, Value)>, j: int, k: Seq<char>)
    requires
        0 <= j < s.len(),
        s[j].0@ == k,
        forall|i: int| j < i < s.len() ==> (#[trigger] s[i]).0@ != k,
    ensures
        map_of(s).contains_key(k),
        map_of(s)[k] == s[j].1.view(),
    decreases s.len(),
{
    if j < s.len() - 1 {
        assert(forall|i: int| 0 <= i < s.len() - 1 ==> s.drop_last()[i] == s[i]);
        lemma_map_of_last(s.drop_last(), j, k);
        assert(s[s.len() - 1].0@ != k);
    }
}

proof fn lemma_map_of_update(s: Seq<(String, Value)>, j: int, e: (String, Value))
    requires
        0 <= j < s.len(),
        s[j].0@ == e.0@,
        forall|i: int| j < i < s.len() ==> (#[trigger] s[i]).0@ != e.0@,
    ensures
        map_of(s.update(j, e)) =~= map_of(s).insert(e.0@, e.1.view()),
    decreases s.len(),
{
    let u = s.update(j, e);
    if j == s.len() - 1 {
        assert(u.drop_last() =~= s.drop_last());
    } else {
        assert(u.drop_last() =~= s.drop_last().update(j, e));
        assert(forall|i: int| 0 <= i < s.len() - 1 ==> s.drop_last()[i] == s[i]);
        lemma_map_of_update(s.drop_last(), j, e);
        assert(s[s.len() - 1].0@ != e.0@);
        assert(u.last() == s.last());
    }
}

/// A variable scope: names bound to values.
#[derive(Debug)]
pub struct Vars {
    entries: Vec<(String, Value)>,
}

impl Vars {
    /// The bindings, as a map from names to values.
    pub closed spec fn view(&self) -> Map<Seq<char>, ValueV> {
        map_of(self.entries@)
    }

    /// An empty scope.
    pub fn new() -> (r: Vars)
        ensures
            r@ == Map::<Seq<char>, ValueV>::empty(),
    {
        Vars { entries: Vec::new() }
    }

    /// The index of the binding of `name`, if any.
    fn find(&self, name: &str) -> (r: Option<usize>)
        ensures
            match r {
                Some(j) => j < self.entries@.len() && self.entries@[j as int].0@ == name@ && forall|i: int|
                    j < i < self.entries@.len() ==> (#[trigger] self.entries@[i]).0@ != name@,
                None => forall|i: int|
                    0 <= i < self.entries@.len() ==> (#[trigger] self.entries@[i]).0@ != name@,
            },
    {
        let mut k: usize = self.entries.len();
        while k > 0
            invariant
                k <= self.entries@.len(),
                forall|i: int| k <= i < self.entries@.len() ==> (#[trigger] self.entries@[i]).0@ != name@,
            decreases k,
        {
            if crate::text::str_eq(self.entries[k - 1].0.as_str(), name) {
                return Some(k - 1);
            }
            k = k - 1;
        }
        None
    }

    /// The value bound to `name`.
    pub fn get(&self, name: &str) -> (r: Option<&Value>)
        ensures
            match r {
                Some(v) => self@.contains_key(name@) && v.view() == self@[name@],
                None => !self@.contains_key(name@),
            },
    {
        match self.find(name) {
            Some(j) => {
                proof {
                    lemma_map_of_last(self.entries@, j as int, name@);
                }
                Some(&self.entries[j].1)
            },
            None => {
                proof {
                    lemma_map_of_absent(self.entries@, name@);
                }
                None
            },
        }
    }

    /// Whether `name` is bound.
    pub fn contains_key(&self, name: &str) -> (r: bool)
        ensures
            r == self@.contains_key(name@),
    {
        self.get(name).is_some()
    }

    /// Bind `name` to `value`, replacing any earlier binding.
    pub fn insert(&mut self, name: String, value: Value)
        ensures
            final(self)@ == old(self)@.insert(name@, value.view()),
    {
        match self.find(name.as_str()) {
            Some(j) => {
                proof {
                    lemma_map_of_update(self.entries@, j as int, (name, value));
                }
                self.entries.set(j, (name, value));
            },
            None => {
                let ghost old_e = self.entries@;
                self.entries.push((name, value));
                proof {
                    assert(self.entries@.drop_last() =~= old_e);
                }
            },
        }
    }

    /// Whether no name is bound.
    pub fn is_empty(&self) -> (r: bool)
        ensures
            r == (self@.dom() == Set::<Seq<char>>::empty()),
    {
        if self.entries.len() == 0 {
            assert(self@.dom() =~= Set::<Seq<char>>::empty());
            true
        } else {
            proof {
                let last = self.entries@.len() - 1;
                lemma_map_of_last(self.entries@, last, self.entries@[last].0@);
                assert(self@.dom().contains(self.entries@[last].0@));
            }
            false
        }
    }

    /// A copy of this scope.
    pub fn dup(&self) -> (r: Vars)
        ensures
            r@ == self@,
    {
        let mut out: Vec<(String, Value)> = Vec::new();
        let mut k: usize = 0;
        while k < self.entries.len()
            invariant
                k <= self.entries@.len(),
                out@.len() == k,
                map_of(out@) == map_of(self.entries@.take(k as int)),
            decreases self.entries@.len() - k,
        {
            let e = &self.entries[k];
            let ghost before = out@;
            out.push((e.0.clone(), dup_value(&e.1)));
            proof {
                let t = self.entries@.take(k + 1);
                assert(t.drop_last() =~= self.entries@.take(k as int));
                assert(out@.drop_last() =~= before);
            }
            k = k + 1;
        }
        assert(self.entries@.take(self.entries@.len() as int) =~= self.entries@);
        Vars { entries: out }
    }

    /// Move the bindings out, leaving this scope empty.
    pub fn take(&mut self) -> (r: Vars)
        ensures
            r@ == old(self)@,
            final(self)@ == Map::<Seq<char>, ValueV>::empty(),
    {
        let mut e: Vec<(String, Value)> = Vec::new();
        std::mem::swap(&mut e, &mut self.entries);
        Vars { entries: e }
    }

    /// The bindings in insertion order; rebinding a name replaces its entry
    /// in place.
    pub fn entries(&self) -> (r: &Vec<(String, Value)>)
        ensures
            map_of(r@) == self@,
    {
        &self.entries
    }
}


// ---- evaluation ----

/// An evaluation error.
#[derive(Debug, PartialEq)]
pub enum EvalError {
    /// A variable was referenced before it was set.
    UnsetVar(String),
    /// An operand had the wrong type for an operator.
    TypeError(String),
    /// Integer overflow or division by zero.
    Arithmetic(String),
    /// A call expression appeared where a value was expected. Calls are
    /// separate instructions, never sub-expressions.
    UnexpectedCall,
}

/// The mathematical model of an [`EvalError`].
pub enum EvalErrorV {
    UnsetVar(Seq<char>),
    TypeError(Seq<char>),
    Arithmetic(Seq<char>),
    UnexpectedCall,
}

impl EvalError {
    pub open spec fn view(&self) -> EvalErrorV {
        match self {
            EvalError::UnsetVar(s) => EvalErrorV::UnsetVar(s@),
            EvalError::TypeError(s) => EvalErrorV::TypeError(s@),
            EvalError::Arithmetic(s) => EvalErrorV::Arithmetic(s@),
            EvalError::UnexpectedCall => EvalErrorV::UnexpectedCall,
        }
    }

    /// The message, as the CLI prints it.
    pub fn message(&self) -> (r: String)
        ensures
            r@ == spec_message(self@),
    {
        let mut s = String::new();
        match self {
            EvalError::UnsetVar(v) => {
                push_str(&mut s, "variable `");
                append_string(&mut s, v);
                push_str(&mut s, "` is not set");
            },
            EvalError::TypeError(m) => {
                push_str(&mut s, "type error: ");
                append_string(&mut s, m);
            },
            EvalError::Arithmetic(m) => {
                push_str(&mut s, "arithmetic error: ");
                append_string(&mut s, m);
            },
            EvalError::UnexpectedCall => push_str(&mut s, "unexpected call in expression"),
        }
        s
    }
}

/// The message of an evaluation error.
pub open spec fn spec_message(e: EvalErrorV) -> Seq<char> {
    match e {
        EvalErrorV::UnsetVar(v) => "variable `"@ + v + "` is not set"@,
        EvalErrorV::TypeError(m) => "type error: "@ + m,
        EvalErrorV::Arithmetic(m) => "arithmetic error: "@ + m,
        EvalErrorV::UnexpectedCall => "unexpected call in expression"@,
    }
}

/// The view of an evaluation result.
pub open spec fn result_view(r: Result<Value, EvalError>) -> Result<ValueV, EvalErrorV> {
    match r {
        Ok(v) => Ok(v.view()),
        Err(e) => Err(e.view()),
    }
}

/// The message for an operation on a decimal (floating-point) operand.
pub open spec fn float_message() -> Seq<char> {
    "floating-point operands are not supported"@
}

pub open spec fn is_number(v: ValueV) -> bool {
    v is Int || v is Float
}

pub open spec fn not_a_number(v: ValueV) -> EvalErrorV {
    EvalErrorV::TypeError("expected a number, found "@ + spec_render(v))
}

/// Truncating integer arithmetic with overflow and division-by-zero checks.
pub open spec fn int_arith(op: BinaryOp, x: i64, y: i64) -> Result<ValueV, EvalErrorV> {
    let r = match op {
        BinaryOp::Add => x.checked_add(y),
        BinaryOp::Sub => x.checked_sub(y),
        BinaryOp::Mul => x.checked_mul(y),
        _ => x.checked_div(y),
    };
    if op == BinaryOp::Div && y == 0 {
        Err(EvalErrorV::Arithmetic("division by zero"@))
    } else {
        match r {
            Some(v) => Ok(ValueV::Int(v)),
            None => Err(EvalErrorV::Arithmetic("integer overflow"@)),
        }
    }
}

/// Lexicographic comparison of character sequences: -1, 0 or 1.
pub open spec fn seq_order(a: Seq<char>, b: Seq<char>) -> int
    decreases a.len(),
{
    if a.len() == 0 && b.len() == 0 {
        0
    } else if a.len() == 0 {
        -1
    } else if b.len() == 0 {
        1
    } else if a[0] < b[0] {
        -1
    } else if a[0] > b[0] {
        1
    } else {
        seq_order(a.drop_first(), b.drop_first())
    }
}

/// Equality of two values: equal types compare by value; mismatched types
/// are an error (`1 == "1"` is a type error, not silently false).
pub open spec fn spec_values_eq(l: ValueV, r: ValueV) -> Result<bool, EvalErrorV> {
    match (l, r) {
        (ValueV::Int(a), ValueV::Int(b)) => Ok(a == b),
        (ValueV::Bool(a), ValueV::Bool(b)) => Ok(a == b),
        (ValueV::Str(a), ValueV::Str(b)) => Ok(a == b),
        (ValueV::Null, ValueV::Null) => Ok(true),
        _ => if is_number(l) && is_number(r) {
            Err(EvalErrorV::TypeError(float_message()))
        } else {
            Err(
                EvalErrorV::TypeError(
                    "cannot compare "@ + spec_render(l) + " and "@ + spec_render(r) + " for equality"@,
                ),
            )
        },
    }
}

/// Three-way comparison for `<`, `>`, `<=`, `>=`: numbers numerically,
/// strings lexicographically; mismatched types are an error.
pub open spec fn spec_compare(l: ValueV, r: ValueV) -> Result<int, EvalErrorV> {
    match (l, r) {
        (ValueV::Int(a), ValueV::Int(b)) => Ok(
            if a < b {
                -1
            } else if a > b {
                1
            } else {
                0
            },
        ),
        (ValueV::Str(a), ValueV::Str(b)) => Ok(seq_order(a, b)),
        _ => if is_number(l) && is_number(r) {
            Err(EvalErrorV::TypeError(float_message()))
        } else {
            Err(EvalErrorV::TypeError("cannot compare "@ + spec_render(l) + " and "@ + spec_render(r)))
        },
    }
}

/// A binary operator other than `and`/`or` applied to two values.
pub open spec fn spec_binop(op: BinaryOp, l: ValueV, r: ValueV) -> Result<ValueV, EvalErrorV> {
    match op {
        BinaryOp::Add | BinaryOp::Sub | BinaryOp::Mul | BinaryOp::Div => if !is_number(l) {
            Err(not_a_number(l))
        } else if !is_number(r) {
            Err(not_a_number(r))
        } else {
            match (l, r) {
                (ValueV::Int(x), ValueV::Int(y)) => int_arith(op, x, y),
                _ => Err(EvalErrorV::TypeError(float_message())),
            }
        },
        BinaryOp::Eq => match spec_values_eq(l, r) {
            Ok(b) => Ok(ValueV::Bool(b)),
            Err(e) => Err(e),
        },
        BinaryOp::Ne => match spec_values_eq(l, r) {
            Ok(b) => Ok(ValueV::Bool(!b)),
            Err(e) => Err(e),
        },
        _ => match spec_compare(l, r) {
            Ok(c) => Ok(
                ValueV::Bool(
                    match op {
                        BinaryOp::Lt => c < 0,
                        BinaryOp::Gt => c > 0,
                        BinaryOp::Le => c <= 0,
                        _ => c >= 0,
                    },
                ),
            ),
            Err(e) => Err(e),
        },
    }
}

/// A unary operator applied to a value.
pub open spec fn spec_unop(op: UnaryOp, v: ValueV) -> Result<ValueV, EvalErrorV> {
    match op {
        UnaryOp::Not => Ok(ValueV::Bool(!spec_truthy(v))),
        UnaryOp::Neg => match v {
            ValueV::Int(n) => if n == i64::MIN {
                Err(EvalErrorV::Arithmetic("integer overflow"@))
            } else {
                Ok(ValueV::Int((-n) as i64))
            },
            ValueV::Float(_) => Err(EvalErrorV::TypeError(float_message())),
            _ => Err(not_a_number(v)),
        },
    }
}

/// The value of an expression in a scope: the semantics of the DSL's
/// expressions. `and`/`or` evaluate their right operand only when the left
/// one does not decide the result.
pub open spec fn spec_eval(e: Expr, vars: Map<Seq<char>, ValueV>) -> Result<ValueV, EvalErrorV>
    decreases e,
{
    match e {
        Expr::Int(n) => Ok(ValueV::Int(n)),
        Expr::Float(t) => Ok(ValueV::Float(decimal_text(t@))),
        Expr::String(parts) => match eval_parts(parts@, vars) {
            Ok(s) => Ok(ValueV::Str(s)),
            Err(err) => Err(err),
        },
        Expr::List(es) => match eval_list(es@, vars) {
            Ok(l) => Ok(ValueV::List(l)),
            Err(err) => Err(err),
        },
        Expr::Var(name) => if name@ == "true"@ {
            Ok(ValueV::Bool(true))
        } else if name@ == "false"@ {
            Ok(ValueV::Bool(false))
        } else if vars.contains_key(name@) {
            Ok(vars[name@])
        } else {
            Err(EvalErrorV::UnsetVar(name@))
        },
        Expr::Binary { op, lhs, rhs } => match spec_eval(lhs.value, vars) {
            Err(err) => Err(err),
            Ok(l) => if op == BinaryOp::And && !spec_truthy(l) {
                Ok(ValueV::Bool(false))
            } else if op == BinaryOp::Or && spec_truthy(l) {
                Ok(ValueV::Bool(true))
            } else {
                match spec_eval(rhs.value, vars) {
                    Err(err) => Err(err),
                    Ok(r) => if op == BinaryOp::And || op == BinaryOp::Or {
                        Ok(ValueV::Bool(spec_truthy(r)))
                    } else {
                        spec_binop(op, l, r)
                    },
                }
            },
        },
        Expr::Unary { op, expr } => match spec_eval(expr.value, vars) {
            Err(err) => Err(err),
            Ok(v) => spec_unop(op, v),
        },
        Expr::Call(_) => Err(EvalErrorV::UnexpectedCall),
    }
}

/// The text of a string literal's parts, left to right.
pub open spec fn eval_parts(parts: Seq<StringPart>, vars: Map<Seq<char>, ValueV>) -> Result<
    Seq<char>,
    EvalErrorV,
>
    decreases parts,
{
    if parts.len() == 0 {
        Ok(Seq::empty())
    } else {
        match eval_parts(parts.drop_last(), vars) {
            Err(err) => Err(err),
            Ok(s) => match parts.last() {
                StringPart::Literal(t) => Ok(s + t@),
                StringPart::Interpolation(x) => match spec_eval(x.value, vars) {
                    Err(err) => Err(err),
                    Ok(v) => Ok(s + spec_render(v)),
                },
            },
        }
    }
}

/// The values of a list literal's elements, left to right.
pub open spec fn eval_list(es: Seq<Spanned<Expr>>, vars: Map<Seq<char>, ValueV>) -> Result<
    Seq<ValueV>,
    EvalErrorV,
>
    decreases es,
{
    if es.len() == 0 {
        Ok(Seq::empty())
    } else {
        match eval_list(es.drop_last(), vars) {
            Err(err) => Err(err),
            Ok(l) => match spec_eval(es.last().value, vars) {
                Err(err) => Err(err),
                Ok(v) => Ok(l.push(v)),
            },
        }
    }
}

/// An error in a prefix of the parts is the error of the whole.
proof fn lemma_eval_parts_prefix_err(parts: Seq<StringPart>, k: int, vars: Map<Seq<char>, ValueV>)
    requires
        0 <= k <= parts.len(),
        eval_parts(parts.take(k), vars) is Err,
    ensures
        eval_parts(parts, vars) == eval_parts(parts.take(k), vars),
    decreases parts.len() - k,
{
    if k < parts.len() {
        let t = parts.take(k + 1);
        assert(t.drop_last() =~= parts.take(k));
        lemma_eval_parts_prefix_err(parts, k + 1, vars);
    } else {
        assert(parts.take(k) =~= parts);
    }
}

/// An error in a prefix of the elements is the error of the whole list.
proof fn lemma_eval_list_prefix_err(es: Seq<Spanned<Expr>>, k: int, vars: Map<Seq<char>, ValueV>)
    requires
        0 <= k <= es.len(),
        eval_list(es.take(k), vars) is Err,
    ensures
        eval_list(es, vars) == eval_list(es.take(k), vars),
    decreases es.len() - k,
{
    if k < es.len() {
        let t = es.take(k + 1);
        assert(t.drop_last() =~= es.take(k));
        lemma_eval_list_prefix_err(es, k + 1, vars);
    } else {
        assert(es.take(k) =~= es);
    }
}

fn type_error_with(prefix: &str, v: &Value) -> (r: EvalError)
    ensures
        r.view() == EvalErrorV::TypeError(prefix@ + spec_render(v.view())),
{
    let mut s = crate::text::owned(prefix);
    push_render(&mut s, v);
    EvalError::TypeError(s)
}

fn float_error() -> (r: EvalError)
    ensures
        r.view() == EvalErrorV::TypeError(float_message()),
{
    EvalError::TypeError(crate::text::owned("floating-point operands are not supported"))
}

fn is_num(v: &Value) -> (r: bool)
    ensures
        r == is_number(v.view()),
{
    match v {
        Value::Int(_) | Value::Float(_) => true,
        _ => false,
    }
}

/// Lexicographic comparison of two strings.
fn str_order(a: &String, b: &String) -> (r: i8)
    ensures
        r as int == seq_order(a@, b@),
{
    let x = crate::text::str_chars(a.as_str());
    let y = crate::text::str_chars(b.as_str());
    let mut k: usize = 0;
    assert(a@.skip(0) =~= a@);
    assert(b@.skip(0) =~= b@);
    while k < x.len() && k < y.len()
        invariant
            x@ == a@,
            y@ == b@,
            k <= x.len(),
            k <= y.len(),
            seq_order(a@, b@) == seq_order(a@.skip(k as int), b@.skip(k as int)),
        decreases x.len() - k,
    {
        if x[k] < y[k] {
            return -1;
        }
        if x[k] > y[k] {
            return 1;
        }
        assert(a@.skip(k as int).drop_first() =~= a@.skip(k + 1));
        assert(b@.skip(k as int).drop_first() =~= b@.skip(k + 1));
        k = k + 1;
    }
    if x.len() == k && y.len() == k {
        0
    } else if x.len() == k {
        -1
    } else {
        1
    }
}

/// Equality of two values (see [`spec_values_eq`]).
pub fn values_eq(l: &Value, r: &Value) -> (res: Result<bool, EvalError>)
    ensures
        match res {
            Ok(b) => spec_values_eq(l.view(), r.view()) == Ok::<bool, EvalErrorV>(b),
            Err(e) => spec_values_eq(l.view(), r.view()) == Err::<bool, EvalErrorV>(e.view()),
        },
{
    match (l, r) {
        (Value::Int(a), Value::Int(b)) => Ok(*a == *b),
        (Value::Bool(a), Value::Bool(b)) => Ok(*a == *b),
        (Value::Str(a), Value::Str(b)) => Ok(crate::text::str_eq(a.as_str(), b.as_str())),
        (Value::Null, Value::Null) => Ok(true),
        _ => {
            if is_num(l) && is_num(r) {
                Err(float_error())
            } else {
                let mut s = crate::text::owned("cannot compare ");
                push_render(&mut s, l);
                push_str(&mut s, " and ");
                push_render(&mut s, r);
                push_str(&mut s, " for equality");
                Err(EvalError::TypeError(s))
            }
        },
    }
}

/// Three-way comparison of two values (see [`spec_compare`]).
pub fn compare(l: &Value, r: &Value) -> (res: Result<i8, EvalError>)
    ensures
        match res {
            Ok(c) => spec_compare(l.view(), r.view()) == Ok::<int, EvalErrorV>(c as int),
            Err(e) => spec_compare(l.view(), r.view()) == Err::<int, EvalErrorV>(e.view()),
        },
{
    match (l, r) {
        (Value::Int(a), Value::Int(b)) => Ok(
            if *a < *b {
                -1
            } else if *a > *b {
                1
            } else {
                0
            },
        ),
        (Value::Str(a), Value::Str(b)) => Ok(str_order(a, b)),
        _ => {
            if is_num(l) && is_num(r) {
                Err(float_error())
            } else {
                let mut s = crate::text::owned("cannot compare ");
                push_render(&mut s, l);
                push_str(&mut s, " and ");
                push_render(&mut s, r);
                Err(EvalError::TypeError(s))
            }
        },
    }
}

/// Apply a binary operator other than `and`/`or` to two values.
pub fn apply_binop(op: BinaryOp, l: &Value, r: &Value) -> (res: Result<Value, EvalError>)
    requires
        op != BinaryOp::And,
        op != BinaryOp::Or,
    ensures
        result_view(res) == spec_binop(op, l.view(), r.view()),
{
    match op {
        BinaryOp::Add | BinaryOp::Sub | BinaryOp::Mul | BinaryOp::Div => {
            if !is_num(l) {
                return Err(type_error_with("expected a number, found ", l));
            }
            if !is_num(r) {
                return Err(type_error_with("expected a number, found ", r));
            }
            match (l, r) {
                (Value::Int(x), Value::Int(y)) => {
                    let x = *x;
                    let y = *y;
                    if op == BinaryOp::Div && y == 0 {
                        return Err(EvalError::Arithmetic(crate::text::owned("division by zero")));
                    }
                    let v = match op {
                        BinaryOp::Add => x.checked_add(y),
                        BinaryOp::Sub => x.checked_sub(y),
                        BinaryOp::Mul => x.checked_mul(y),
                        _ => x.checked_div(y),
                    };
                    match v {
                        Some(n) => Ok(Value::Int(n)),
                        None => Err(EvalError::Arithmetic(crate::text::owned("integer overflow"))),
                    }
                },
                _ => Err(float_error()),
            }
        },
        BinaryOp::Eq => match values_eq(l, r) {
            Ok(b) => Ok(Value::Bool(b)),
            Err(e) => Err(e),
        },
        BinaryOp::Ne => match values_eq(l, r) {
            Ok(b) => Ok(Value::Bool(!b)),
            Err(e) => Err(e),
        },
        _ => match compare(l, r) {
            Ok(c) => Ok(
                Value::Bool(
                    match op {
                        BinaryOp::Lt => c < 0,
                        BinaryOp::Gt => c > 0,
                        BinaryOp::Le => c <= 0,
                        _ => c >= 0,
                    },
                ),
            ),
            Err(e) => Err(e),
        },
    }
}

/// Apply a unary operator to a value.
pub fn apply_unop(op: UnaryOp, v: &Value) -> (res: Result<Value, EvalError>)
    ensures
        result_view(res) == spec_unop(op, v.view()),
{
    match op {
        UnaryOp::Not => Ok(Value::Bool(!v.truthy())),
        UnaryOp::Neg => match v {
            Value::Int(n) => if *n == i64::MIN {
                Err(EvalError::Arithmetic(crate::text::owned("integer overflow")))
            } else {
                Ok(Value::Int(-*n))
            },
            Value::Float(_) => Err(float_error()),
            _ => Err(type_error_with("expected a number, found ", v)),
        },
    }
}

/// Evaluate an expression against the current variable scope.
#[verifier::loop_isolation(false)]
pub fn eval(expr: &Expr, vars: &Vars) -> (r: Result<Value, EvalError>)
    ensures
        result_view(r) == spec_eval(*expr, vars@),
    decreases expr,
{
    match expr {
        Expr::Int(n) => Ok(Value::Int(*n)),
        Expr::Float(t) => Ok(Value::Float(decimal_text_of(t))),
        Expr::String(parts) => {
            let mut s = String::new();
            let mut k: usize = 0;
            proof {
                assert(parts@.take(0) =~= Seq::<StringPart>::empty());
            }
            while k < parts.len()
                invariant
                    k <= parts.len(),
                    eval_parts(parts@.take(k as int), vars@) == Ok::<Seq<char>, EvalErrorV>(s@),
                decreases parts.len() - k,
            {
                proof {
                    let t = parts@.take(k + 1);
                    assert(t.drop_last() =~= parts@.take(k as int));
                    assert(t.last() == parts@[k as int]);
                }
                match &parts[k] {
                    StringPart::Literal(t) => append_string(&mut s, t),
                    StringPart::Interpolation(e) => {
                        match eval(&e.value, vars) {
                            Ok(v) => push_render(&mut s, &v),
                            Err(err) => {
                                proof {
                                    lemma_eval_parts_prefix_err(parts@, k + 1, vars@);
                                }
                                return Err(err);
                            },
                        }
                    },
                }
                k = k + 1;
            }
            assert(parts@.take(parts.len() as int) =~= parts@);
            Ok(Value::Str(s))
        },
        Expr::List(es) => {
            let mut out: Vec<Value> = Vec::new();
            let ghost mut l: Seq<ValueV> = Seq::empty();
            let mut k: usize = 0;
            proof {
                assert(es@.take(0) =~= Seq::<Spanned<Expr>>::empty());
            }
            while k < es.len()
                invariant
                    k <= es.len(),
                    out@.len() == k,
                    l.len() == k,
                    forall|j: int| 0 <= j < k ==> (#[trigger] out@[j]).view() == l[j],
                    eval_list(es@.take(k as int), vars@) == Ok::<Seq<ValueV>, EvalErrorV>(l),
                decreases es.len() - k,
            {
                proof {
                    let t = es@.take(k + 1);
                    assert(t.drop_last() =~= es@.take(k as int));
                    assert(t.last() == es@[k as int]);
                }
                match eval(&es[k].value, vars) {
                    Ok(v) => {
                        proof {
                            l = l.push(v.view());
                        }
                        out.push(v);
                    },
                    Err(err) => {
                        proof {
                            lemma_eval_list_prefix_err(es@, k + 1, vars@);
                        }
                        return Err(err);
                    },
                }
                k = k + 1;
            }
            assert(es@.take(es.len() as int) =~= es@);
            let r = Value::List(out);
            assert(r.view()->List_0 =~= l);
            Ok(r)
        },
        Expr::Var(name) => {
            if crate::text::str_eq(name.as_str(), "true") {
                Ok(Value::Bool(true))
            } else if crate::text::str_eq(name.as_str(), "false") {
                Ok(Value::Bool(false))
            } else {
                match vars.get(name.as_str()) {
                    Some(v) => Ok(dup_value(v)),
                    None => Err(EvalError::UnsetVar(name.clone())),
                }
            }
        },
        Expr::Binary { op, lhs, rhs } => {
            let l = eval(&lhs.value, vars)?;
            if *op == BinaryOp::And && !l.truthy() {
                return Ok(Value::Bool(false));
            }
            if *op == BinaryOp::Or && l.truthy() {
                return Ok(Value::Bool(true));
            }
            let r = eval(&rhs.value, vars)?;
            if *op == BinaryOp::And || *op == BinaryOp::Or {
                Ok(Value::Bool(r.truthy()))
            } else {
                apply_binop(*op, &l, &r)
            }
        },
        Expr::Unary { op, expr } => {
            let v = eval(&expr.value, vars)?;
            apply_unop(*op, &v)
        },
        Expr::Call(_) => Err(EvalError::UnexpectedCall),
    }
}


// ---- static evaluation (placeholders for unknowns) ----

// ---- decimal text ----

/// The end of the leading zeros of `t[i..k]`, keeping its last digit.
pub open spec fn lead_end(t: Seq<char>, i: int, k: int) -> int
    decreases k - i,
{
    if i + 1 < k && t[i] == '0' {
        lead_end(t, i + 1, k)
    } else {
        i
    }
}

/// The end of `t[k + 1..j]` once its trailing zeros are dropped.
pub open spec fn trail_end(t: Seq<char>, j: int, k: int) -> int
    decreases j - k,
{
    if j > k + 1 && t[j - 1] == '0' {
        trail_end(t, j - 1, k)
    } else {
        j
    }
}

/// How a decimal number written `t` is shown: its value's shortest
/// decimal form, without leading zeros before the point, trailing zeros
/// after it, or a point with nothing after it (`2.50` shows as `2.5`,
/// `2.0` as `2`).
pub open spec fn decimal_text(t: Seq<char>) -> Seq<char> {
    let k = crate::text::find_char(t, '.', 0);
    if k < 0 {
        t
    } else {
        let a = lead_end(t, 0, k);
        let e = trail_end(t, t.len() as int, k);
        if e == k + 1 {
            t.subrange(a, k)
        } else {
            t.subrange(a, e)
        }
    }
}

/// The text a decimal number written `t` shows as (see [`decimal_text`]).
pub fn decimal_text_of(t: &String) -> (r: String)
    ensures
        r@ == decimal_text(t@),
{
    let v = crate::text::str_chars(t.as_str());
    let n = v.len();
    let mut k: usize = 0;
    while k < n && v[k] != '.'
        invariant
            k <= n,
            n == v@.len(),
            crate::text::find_char(v@, '.', 0) == crate::text::find_char(v@, '.', k as int),
        decreases n - k,
    {
        k = k + 1;
    }
    if k == n {
        return t.clone();
    }
    let mut a: usize = 0;
    while a + 1 < k && v[a] == '0'
        invariant
            a <= k,
            k < n,
            n == v@.len(),
            lead_end(v@, 0, k as int) == lead_end(v@, a as int, k as int),
        decreases k - a,
    {
        a = a + 1;
    }
    let mut e: usize = n;
    while e > k + 1 && v[e - 1] == '0'
        invariant
            k + 1 <= e <= n,
            n == v@.len(),
            trail_end(v@, n as int, k as int) == trail_end(v@, e as int, k as int),
        decreases e,
    {
        e = e - 1;
    }
    if e == k + 1 {
        string_from_range(&v, a, k)
    } else {
        string_from_range(&v, a, e)
    }
}

/// `{name}`: the placeholder for an unresolved variable.
pub open spec fn placeholder(name: Seq<char>) -> Seq<char> {
    seq!['{'] + name + seq!['}']
}

/// The text that stands for an interpolation when no scope is available.
pub open spec fn spec_interp_placeholder(e: Expr) -> Seq<char> {
    match e {
        Expr::Var(name) => placeholder(name@),
        Expr::Int(n) => int_text(n as int),
        Expr::Float(t) => decimal_text(t@),
        _ => "{...}"@,
    }
}

/// The value of an expression for static rendering: literals evaluate to
/// themselves, `true`/`false` to booleans, other variables to a `{name}`
/// placeholder, and computed expressions to `{...}`.
pub open spec fn spec_eval_literal(e: Expr) -> ValueV
    decreases e,
{
    match e {
        Expr::Int(n) => ValueV::Int(n),
        Expr::Float(t) => ValueV::Float(decimal_text(t@)),
        Expr::String(parts) => ValueV::Str(literal_parts(parts@)),
        Expr::List(es) => ValueV::List(literal_list(es@)),
        Expr::Var(name) => if name@ == "true"@ {
            ValueV::Bool(true)
        } else if name@ == "false"@ {
            ValueV::Bool(false)
        } else {
            ValueV::Str(placeholder(name@))
        },
        _ => ValueV::Str("{...}"@),
    }
}

pub open spec fn literal_parts(parts: Seq<StringPart>) -> Seq<char>
    decreases parts.len(),
{
    if parts.len() == 0 {
        Seq::empty()
    } else {
        literal_parts(parts.drop_last()) + match parts.last() {
            StringPart::Literal(t) => t@,
            StringPart::Interpolation(x) => spec_interp_placeholder(x.value),
        }
    }
}

pub open spec fn literal_list(es: Seq<Spanned<Expr>>) -> Seq<ValueV>
    decreases es,
{
    if es.len() == 0 {
        Seq::empty()
    } else {
        literal_list(es.drop_last()).push(spec_eval_literal(es.last().value))
    }
}

fn push_interp_placeholder(s: &mut String, e: &Expr)
    ensures
        final(s)@ == old(s)@ + spec_interp_placeholder(*e),
{
    match e {
        Expr::Var(name) => {
            push_char(s, '{');
            append_string(s, name);
            push_char(s, '}');
            assert(final(s)@ =~= old(s)@ + spec_interp_placeholder(*e));
        },
        Expr::Int(n) => push_int(s, *n),
        Expr::Float(t) => {
            let d = decimal_text_of(t);
            append_string(s, &d);
        },
        _ => push_str(s, "{...}"),
    }
}

/// Evaluate a literal expression for static rendering (see
/// [`spec_eval_literal`]).
#[verifier::loop_isolation(false)]
pub fn eval_literal(e: &Spanned<Expr>) -> (r: Value)
    ensures
        r.view() == spec_eval_literal(e.value),
    decreases e,
{
    match &e.value {
        Expr::Int(n) => Value::Int(*n),
        Expr::Float(t) => Value::Float(decimal_text_of(t)),
        Expr::String(parts) => {
            let mut s = String::new();
            let mut k: usize = 0;
            assert(parts@.take(0) =~= Seq::<StringPart>::empty());
            while k < parts.len()
                invariant
                    k <= parts.len(),
                    s@ == literal_parts(parts@.take(k as int)),
                decreases parts.len() - k,
            {
                proof {
                    let t = parts@.take(k + 1);
                    assert(t.drop_last() =~= parts@.take(k as int));
                    assert(t.last() == parts@[k as int]);
                }
                match &parts[k] {
                    StringPart::Literal(t) => append_string(&mut s, t),
                    StringPart::Interpolation(inner) => push_interp_placeholder(&mut s, &inner.value),
                }
                k = k + 1;
            }
            assert(parts@.take(parts.len() as int) =~= parts@);
            Value::Str(s)
        },
        Expr::List(es) => {
            let mut out: Vec<Value> = Vec::new();
            let mut k: usize = 0;
            assert(es@.take(0) =~= Seq::<Spanned<Expr>>::empty());
            while k < es.len()
                invariant
                    k <= es.len(),
                    out@.len() == k,
                    literal_list(es@.take(k as int)).len() == k,
                    forall|j: int|
                        0 <= j < k ==> (#[trigger] out@[j]).view() == literal_list(es@.take(k as int))[j],
                decreases es.len() - k,
            {
                proof {
                    let t = es@.take(k + 1);
                    assert(t.drop_last() =~= es@.take(k as int));
                    assert(t.last() == es@[k as int]);
                }
                let v = eval_literal(&es[k]);
                out.push(v);
                k = k + 1;
            }
            assert(es@.take(es.len() as int) =~= es@);
            let r = Value::List(out);
            assert(r.view()->List_0 =~= literal_list(es@));
            r
        },
        Expr::Var(name) => {
            if crate::text::str_eq(name.as_str(), "true") {
                Value::Bool(true)
            } else if crate::text::str_eq(name.as_str(), "false") {
                Value::Bool(false)
            } else {
                let mut s = String::new();
                push_char(&mut s, '{');
                append_string(&mut s, name);
                push_char(&mut s, '}');
                assert(s@ =~= placeholder(name@));
                Value::Str(s)
            }
        },
        _ => Value::Str(crate::text::owned("{...}")),
    }
}

// ---- laws of evaluation ----

/// `and` short-circuits: when its left operand is falsy the result is
/// `false`, whatever the right operand is, even one that would fail.
pub proof fn law_and_short_circuits(lhs: Spanned<Expr>, rhs: Spanned<Expr>, vars: Map<Seq<char>, ValueV>)
    requires
        spec_eval(lhs.value, vars) matches Ok(l) && !spec_truthy(l),
    ensures
        spec_eval(Expr::Binary { op: BinaryOp::And, lhs: Box::new(lhs), rhs: Box::new(rhs) }, vars) == Ok::<
            ValueV,
            EvalErrorV,
        >(ValueV::Bool(false)),
{
}

/// `or` short-circuits: when its left operand is truthy the result is `true`,
/// whatever the right operand is.
pub proof fn law_or_short_circuits(lhs: Spanned<Expr>, rhs: Spanned<Expr>, vars: Map<Seq<char>, ValueV>)
    requires
        spec_eval(lhs.value, vars) matches Ok(l) && spec_truthy(l),
    ensures
        spec_eval(Expr::Binary { op: BinaryOp::Or, lhs: Box::new(lhs), rhs: Box::new(rhs) }, vars) == Ok::<
            ValueV,
            EvalErrorV,
        >(ValueV::Bool(true)),
{
}

/// `!=` is the negation of `==`, and fails exactly when `==` fails.
pub proof fn law_ne_is_not_eq(lhs: Spanned<Expr>, rhs: Spanned<Expr>, vars: Map<Seq<char>, ValueV>)
    ensures
        match spec_eval(Expr::Binary { op: BinaryOp::Eq, lhs: Box::new(lhs), rhs: Box::new(rhs) }, vars) {
            Ok(ValueV::Bool(b)) => spec_eval(
                Expr::Binary { op: BinaryOp::Ne, lhs: Box::new(lhs), rhs: Box::new(rhs) },
                vars,
            ) == Ok::<ValueV, EvalErrorV>(ValueV::Bool(!b)),
            Ok(_) => false,
            Err(e) => spec_eval(Expr::Binary { op: BinaryOp::Ne, lhs: Box::new(lhs), rhs: Box::new(rhs) }, vars)
                == Err::<ValueV, EvalErrorV>(e),
        },
{
}

/// `not` inverts truthiness and never fails on a value.
pub proof fn law_not_inverts_truthiness(e: Spanned<Expr>, vars: Map<Seq<char>, ValueV>)
    requires
        spec_eval(e.value, vars) is Ok,
    ensures
        spec_eval(Expr::Unary { op: UnaryOp::Not, expr: Box::new(e) }, vars) == Ok::<ValueV, EvalErrorV>(
            ValueV::Bool(!spec_truthy(spec_eval(e.value, vars)->Ok_0)),
        ),
{
}

/// Arithmetic on integers is integer arithmetic: where the exact result
/// fits in an `i64`, `x + y`, `x - y` (the left operand minus the right)
/// and `x * y` evaluate to it, so a difference added back to the right
/// operand gives the left one; where it does not fit, the operation is an
/// overflow error.
pub proof fn law_integer_arithmetic(lhs: Spanned<Expr>, rhs: Spanned<Expr>, vars: Map<Seq<char>, ValueV>, x: i64, y: i64)
    requires
        spec_eval(lhs.value, vars) == Ok::<ValueV, EvalErrorV>(ValueV::Int(x)),
        spec_eval(rhs.value, vars) == Ok::<ValueV, EvalErrorV>(ValueV::Int(y)),
    ensures
        ({
            let e = |op: BinaryOp| Expr::Binary { op, lhs: Box::new(lhs), rhs: Box::new(rhs) };
            &&& i64::MIN <= x + y <= i64::MAX ==> spec_eval(e(BinaryOp::Add), vars) == Ok::<ValueV, EvalErrorV>(
                ValueV::Int((x + y) as i64),
            )
            &&& i64::MIN <= x - y <= i64::MAX ==> spec_eval(e(BinaryOp::Sub), vars) == Ok::<ValueV, EvalErrorV>(
                ValueV::Int((x - y) as i64),
            )
            &&& i64::MIN <= x * y <= i64::MAX ==> spec_eval(e(BinaryOp::Mul), vars) == Ok::<ValueV, EvalErrorV>(
                ValueV::Int((x * y) as i64),
            )
            &&& !(i64::MIN <= x + y <= i64::MAX) ==> spec_eval(e(BinaryOp::Add), vars) is Err
            &&& !(i64::MIN <= x - y <= i64::MAX) ==> spec_eval(e(BinaryOp::Sub), vars) is Err
            &&& !(i64::MIN <= x * y <= i64::MAX) ==> spec_eval(e(BinaryOp::Mul), vars) is Err
            &&& (spec_eval(e(BinaryOp::Sub), vars) matches Ok(ValueV::Int(d)) ==> d + y == x)
        }),
{
}

proof fn lemma_nonneg_div(a: int, b: int)
    requires
        0 <= a,
        0 < b,
    ensures
        0 <= a / b <= a,
        0 <= a - (a / b) * b < b,
        b >= 2 ==> 2 * (a / b) <= a,
{
    let q = a / b;
    vstd::arithmetic::div_mod::lemma_fundamental_div_mod(a, b);
    vstd::arithmetic::div_mod::lemma_mod_pos_bound(a, b);
    vstd::arithmetic::div_mod::lemma_div_pos_is_pos(a, b);
    let m = a % b;
    assert(q * b == b * q) by (nonlinear_arith);
    assert(q <= q * b) by (nonlinear_arith)
        requires
            q >= 0,
            b >= 1,
    ;
    assert(b >= 2 ==> 2 * q <= q * b) by (nonlinear_arith)
        requires
            q >= 0,
    ;
}

/// Integer division truncates toward zero: the remainder `x - q * y` has
/// the sign of `x` (or is zero) and is smaller than `y` in magnitude.
proof fn lemma_int_div(x: i64, y: i64)
    requires
        y != 0,
        !(x == i64::MIN && y == -1),
    ensures
        int_arith(BinaryOp::Div, x, y) is Ok,
        int_arith(BinaryOp::Div, x, y)->Ok_0 is Int,
        ({
            let q = int_arith(BinaryOp::Div, x, y)->Ok_0->Int_0;
            let r = x - q * y;
            &&& (x >= 0 ==> 0 <= r)
            &&& (x <= 0 ==> r <= 0)
            &&& (y > 0 ==> -y < r < y)
            &&& (y < 0 ==> y < r < -y)
        }),
{
    let xi = x as int;
    let d = y as int;
    if x == 0 {
    } else if x > 0 && d > 0 {
        lemma_nonneg_div(xi, d);
    } else if x < 0 && d < 0 {
        lemma_nonneg_div(-xi, -d);
        let q = (-xi) / (-d);
        assert(q * (-d) == -(q * d)) by (nonlinear_arith);
        if d == -1 {
            assert(q == -xi) by (nonlinear_arith)
                requires
                    0 <= -xi - q * 1 < 1,
            ;
        }
    } else if x < 0 {
        lemma_nonneg_div(-xi, d);
        let q = (-xi) / d;
        assert((q * -1) * d == -(q * d)) by (nonlinear_arith);
    } else {
        lemma_nonneg_div(xi, -d);
        let q = xi / (-d);
        assert((q * -1) * d == q * (-d)) by (nonlinear_arith);
    }
}

/// Integer division truncates toward zero: for a divisor other than zero,
/// `x / y` evaluates to the integer `q` whose remainder `x - q * y` has the
/// sign of `x` (or is zero) and is smaller than `y` in magnitude; a zero
/// divisor is a division-by-zero error, and the one quotient that does not
/// fit (`i64::MIN / -1`) an overflow error.
pub proof fn law_integer_division(lhs: Spanned<Expr>, rhs: Spanned<Expr>, vars: Map<Seq<char>, ValueV>, x: i64, y: i64)
    requires
        spec_eval(lhs.value, vars) == Ok::<ValueV, EvalErrorV>(ValueV::Int(x)),
        spec_eval(rhs.value, vars) == Ok::<ValueV, EvalErrorV>(ValueV::Int(y)),
    ensures
        ({
            let v = spec_eval(Expr::Binary { op: BinaryOp::Div, lhs: Box::new(lhs), rhs: Box::new(rhs) }, vars);
            &&& y == 0 ==> v == Err::<ValueV, EvalErrorV>(EvalErrorV::Arithmetic("division by zero"@))
            &&& (x == i64::MIN && y == -1) ==> v == Err::<ValueV, EvalErrorV>(
                EvalErrorV::Arithmetic("integer overflow"@),
            )
            &&& (y != 0 && !(x == i64::MIN && y == -1)) ==> {
                &&& v is Ok
                &&& v->Ok_0 is Int
                &&& {
                    let q = v->Ok_0->Int_0;
                    let r = x - q * y;
                    &&& (x >= 0 ==> 0 <= r)
                    &&& (x <= 0 ==> r <= 0)
                    &&& (y > 0 ==> -y < r < y)
                    &&& (y < 0 ==> y < r < -y)
                }
            }
        }),
{
    if y != 0 && !(x == i64::MIN && y == -1) {
        lemma_int_div(x, y);
    }
}

/// Lexicographic order on character sequences: `a` comes before `b` when,
/// after a common prefix, `a` ends while `b` goes on, or `a` has the smaller
/// character at the first place where they differ.
pub open spec fn lex_less(a: Seq<char>, b: Seq<char>) -> bool {
    exists|k: int|
        0 <= k <= a.len() && k <= b.len() && #[trigger] a.take(k) == b.take(k) && ((k == a.len() && k < b.len()) || (
        k < a.len() && k < b.len() && a[k] < b[k]))
}

proof fn lemma_seq_order_antisymmetric(a: Seq<char>, b: Seq<char>)
    ensures
        seq_order(a, b) == -seq_order(b, a),
        -1 <= seq_order(a, b) <= 1,
        seq_order(a, b) == 0 <==> a == b,
    decreases a.len(),
{
    if a.len() > 0 && b.len() > 0 && a[0] == b[0] {
        lemma_seq_order_antisymmetric(a.drop_first(), b.drop_first());
        if a.drop_first() == b.drop_first() {
            assert(a =~= seq![a[0]] + a.drop_first());
            assert(b =~= seq![b[0]] + b.drop_first());
        }
    }
    if a.len() == 0 && b.len() == 0 {
        assert(a =~= b);
    }
}

proof fn lemma_seq_order_is_lex(a: Seq<char>, b: Seq<char>)
    ensures
        seq_order(a, b) == -1 <==> lex_less(a, b),
    decreases a.len(),
{
    if a.len() > 0 && b.len() > 0 && a[0] == b[0] {
        let (a1, b1) = (a.drop_first(), b.drop_first());
        lemma_seq_order_is_lex(a1, b1);
        if lex_less(a1, b1) {
            let k = choose|k: int|
                0 <= k <= a1.len() && k <= b1.len() && #[trigger] a1.take(k) == b1.take(k) && ((k == a1.len() && k
                    < b1.len()) || (k < a1.len() && k < b1.len() && a1[k] < b1[k]));
            assert(a.take(k + 1) =~= seq![a[0]] + a1.take(k));
            assert(b.take(k + 1) =~= seq![b[0]] + b1.take(k));
            assert(lex_less(a, b));
        }
        if lex_less(a, b) {
            let k = choose|k: int|
                0 <= k <= a.len() && k <= b.len() && #[trigger] a.take(k) == b.take(k) && ((k == a.len() && k
                    < b.len()) || (k < a.len() && k < b.len() && a[k] < b[k]));
            if k == 0 {
                assert(false);
            } else {
                assert(a1.take(k - 1) =~= a.take(k).drop_first());
                assert(b1.take(k - 1) =~= b.take(k).drop_first());
                assert(lex_less(a1, b1));
            }
        }
    } else {
        if lex_less(a, b) {
            let k = choose|k: int|
                0 <= k <= a.len() && k <= b.len() && #[trigger] a.take(k) == b.take(k) && ((k == a.len() && k
                    < b.len()) || (k < a.len() && k < b.len() && a[k] < b[k]));
            if k > 0 {
                assert(a.take(k)[0] == b.take(k)[0]);
            }
        }
        if a.len() == 0 && b.len() > 0 {
            assert(a.take(0) =~= b.take(0));
        }
        if a.len() > 0 && b.len() > 0 && a[0] < b[0] {
            assert(a.take(0) =~= b.take(0));
        }
    }
}

/// Comparisons of strings are the lexicographic order: `x < y` holds when
/// `x` comes before `y`, `x > y` when `y` comes before `x`, and `<=`, `>=`
/// are their negations the other way round.
pub proof fn law_string_comparison(
    lhs: Spanned<Expr>,
    rhs: Spanned<Expr>,
    vars: Map<Seq<char>, ValueV>,
    x: Seq<char>,
    y: Seq<char>,
)
    requires
        spec_eval(lhs.value, vars) == Ok::<ValueV, EvalErrorV>(ValueV::Str(x)),
        spec_eval(rhs.value, vars) == Ok::<ValueV, EvalErrorV>(ValueV::Str(y)),
    ensures
        ({
            let e = |op: BinaryOp| Expr::Binary { op, lhs: Box::new(lhs), rhs: Box::new(rhs) };
            &&& spec_eval(e(BinaryOp::Lt), vars) == Ok::<ValueV, EvalErrorV>(ValueV::Bool(lex_less(x, y)))
            &&& spec_eval(e(BinaryOp::Gt), vars) == Ok::<ValueV, EvalErrorV>(ValueV::Bool(lex_less(y, x)))
            &&& spec_eval(e(BinaryOp::Le), vars) == Ok::<ValueV, EvalErrorV>(ValueV::Bool(!lex_less(y, x)))
            &&& spec_eval(e(BinaryOp::Ge), vars) == Ok::<ValueV, EvalErrorV>(ValueV::Bool(!lex_less(x, y)))
        }),
{
    lemma_seq_order_antisymmetric(x, y);
    lemma_seq_order_is_lex(x, y);
    lemma_seq_order_is_lex(y, x);
}

/// Comparisons of integers are the integer order: `<`, `<=`, `>`, `>=`,
/// `==` and `!=` evaluate to whether `x` and `y` stand in that relation,
/// each operator to its own relation.
pub proof fn law_integer_comparison(lhs: Spanned<Expr>, rhs: Spanned<Expr>, vars: Map<Seq<char>, ValueV>, x: i64, y: i64)
    requires
        spec_eval(lhs.value, vars) == Ok::<ValueV, EvalErrorV>(ValueV::Int(x)),
        spec_eval(rhs.value, vars) == Ok::<ValueV, EvalErrorV>(ValueV::Int(y)),
    ensures
        ({
            let e = |op: BinaryOp| Expr::Binary { op, lhs: Box::new(lhs), rhs: Box::new(rhs) };
            &&& spec_eval(e(BinaryOp::Lt), vars) == Ok::<ValueV, EvalErrorV>(ValueV::Bool(x < y))
            &&& spec_eval(e(BinaryOp::Le), vars) == Ok::<ValueV, EvalErrorV>(ValueV::Bool(x <= y))
            &&& spec_eval(e(BinaryOp::Gt), vars) == Ok::<ValueV, EvalErrorV>(ValueV::Bool(x > y))
            &&& spec_eval(e(BinaryOp::Ge), vars) == Ok::<ValueV, EvalErrorV>(ValueV::Bool(x >= y))
            &&& spec_eval(e(BinaryOp::Eq), vars) == Ok::<ValueV, EvalErrorV>(ValueV::Bool(x == y))
            &&& spec_eval(e(BinaryOp::Ne), vars) == Ok::<ValueV, EvalErrorV>(ValueV::Bool(x != y))
        }),
{
}

} // verus!
