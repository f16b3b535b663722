use vstd::prelude::*;
use crate::grammar::{parse_json, ParseError};
use crate::laws::{keys_distinct, lemma_parsed_keys_distinct};
use crate::parser::Parser;
use crate::text::push_str;

verus! {

/// A value nested inside a container.
///
/// A float is held as its decimal literal, as the parser reads it (an
/// optional `-`, digits and one `.`); `str::parse::<f64>` gives its value.
#[derive(Debug, PartialEq)]
pub enum JsonValue {
    String(String),
    Integer(i64),
    Float(String),
    Boolean(bool),
    Object(Vec<(String, JsonValue)>),
    Array(Vec<JsonValue>),
}

/// A parsed document: its root is always a container.
#[derive(Debug, PartialEq)]
pub enum Json {
    Object(Vec<(String, JsonValue)>),
    Array(Vec<JsonValue>),
}

/// The mathematical model of a `JsonValue`.
pub enum ValueModel {
    Str(Seq<char>),
    Int(int),
    Float(Seq<char>),
    Bool(bool),
    Object(Seq<(Seq<char>, ValueModel)>),
    Array(Seq<ValueModel>),
}

/// The mathematical model of a `Json` document.
pub enum JsonModel {
    Object(Seq<(Seq<char>, ValueModel)>),
    Array(Seq<ValueModel>),
}

impl JsonValue {
    /// The model of the value. In the containers, the test on `i` only lets
    /// the recursion be seen to end: `Seq::new` reads indices below the
    /// length alone.
    pub open spec fn model(&self) -> ValueModel
        decreases self,
    {
        match self {
            JsonValue::String(s) => ValueModel::Str(s@),
            JsonValue::Integer(i) => ValueModel::Int(*i as int),
            JsonValue::Float(s) => ValueModel::Float(s@),
            JsonValue::Boolean(b) => ValueModel::Bool(*b),
            JsonValue::Object(members) => ValueModel::Object(
                Seq::new(members.len() as nat, |i: int| if 0 <= i < members.len() {
                    (members[i].0@, members[i].1.model())
                } else {
                    (Seq::empty(), ValueModel::Bool(false))
                }),
            ),
            JsonValue::Array(items) => ValueModel::Array(
                Seq::new(items.len() as nat, |i: int| if 0 <= i < items.len() {
                    items[i].model()
                } else {
                    ValueModel::Bool(false)
                }),
            ),
        }
    }
}

/// The models of a sequence of values.
pub open spec fn models(v: Seq<JsonValue>) -> Seq<ValueModel> {
    Seq::new(v.len(), |i: int| v[i].model())
}

/// The models of a sequence of object entries.
pub open spec fn member_models(v: Seq<(String, JsonValue)>) -> Seq<(Seq<char>, ValueModel)> {
    Seq::new(v.len(), |i: int| (v[i].0@, v[i].1.model()))
}

pub proof fn lemma_array_model(v: Vec<JsonValue>)
    ensures
        JsonValue::Array(v).model() == ValueModel::Array(models(v@)),
{
    assert(JsonValue::Array(v).model()->Array_0 =~= models(v@));
}

pub proof fn lemma_object_model(v: Vec<(String, JsonValue)>)
    ensures
        JsonValue::Object(v).model() == ValueModel::Object(member_models(v@)),
{
    assert(JsonValue::Object(v).model()->Object_0 =~= member_models(v@));
}

impl Json {
    pub open spec fn model(&self) -> JsonModel {
        match self {
            Json::Object(m) => JsonModel::Object(member_models(m@)),
            Json::Array(a) => JsonModel::Array(models(a@)),
        }
    }
}

/// Parses a whole source text.
pub fn parse_from_string(source: String) -> (r: Result<Json, ParseError>)
    ensures
        match parse_json(source@) {
            Ok(m) => r matches Ok(j) && j.model() == m,
            Err(x) => r == Err::<Json, ParseError>(x),
        },
        r matches Ok(j) ==> keys_distinct(j.model().root()),
{
    proof {
        lemma_parsed_keys_distinct(source@);
    }
    let mut parser = Parser::new(source);
    parser.parse()
}

pub open spec fn digit_text(d: int) -> char {
    seq!['0', '1', '2', '3', '4', '5', '6', '7', '8', '9'][d]
}

/// The decimal digits of `n`, without leading zeros.
pub open spec fn decimal(n: nat) -> Seq<char>
    decreases n,
{
    if n < 10 {
        seq![digit_text(n as int)]
    } else {
        decimal(n / 10).push(digit_text((n % 10) as int))
    }
}

/// An integer in decimal, with a `-` when it is negative.
pub open spec fn integer_text(i: int) -> Seq<char> {
    if i < 0 {
        seq!['-'] + decimal((-i) as nat)
    } else {
        decimal(i as nat)
    }
}

pub open spec fn quoted(t: Seq<char>) -> Seq<char> {
    seq!['"'] + t + seq!['"']
}

/// The indentation of the children of a container indented by `pad`.
pub open spec fn deeper(pad: Seq<char>) -> Seq<char> {
    pad + seq![' ', ' ']
}

/// A value as text. The children of a container stand one per line, each
/// indented by `deeper(pad)` and followed by a comma (the last one too); the
/// closing bracket is indented by `pad`. A string is written between quotes
/// as it is, a float as its literal.
pub open spec fn render_value(pad: Seq<char>, v: ValueModel) -> Seq<char>
    decreases v,
{
    match v {
        ValueModel::Bool(b) => if b {
            seq!['t', 'r', 'u', 'e']
        } else {
            seq!['f', 'a', 'l', 's', 'e']
        },
        ValueModel::Float(t) => t,
        ValueModel::Int(i) => integer_text(i),
        ValueModel::Str(t) => quoted(t),
        ValueModel::Array(items) => seq!['[', '\n'] + render_items(pad, items) + pad + seq![']'],
        ValueModel::Object(ms) => seq!['{', '\n'] + render_members(pad, ms) + pad + seq!['}'],
    }
}

/// The lines of the elements of an array indented by `pad`.
pub open spec fn render_items(pad: Seq<char>, items: Seq<ValueModel>) -> Seq<char>
    decreases items,
{
    if items.len() == 0 {
        Seq::empty()
    } else {
        let n = items.len() - 1;
        proof {
            assert(decreases_to!(items => items.subrange(0, n)));
            assert(decreases_to!(items => items[n]));
        }
        render_items(pad, items.subrange(0, n)) + deeper(pad) + render_value(deeper(pad), items[n])
            + seq![',', '\n']
    }
}

/// The lines of the entries of an object indented by `pad`.
pub open spec fn render_members(pad: Seq<char>, ms: Seq<(Seq<char>, ValueModel)>) -> Seq<char>
    decreases ms,
{
    if ms.len() == 0 {
        Seq::empty()
    } else {
        let n = ms.len() - 1;
        proof {
            assert(decreases_to!(ms => ms.subrange(0, n)));
            assert(decreases_to!(ms => ms[n]));
        }
        render_members(pad, ms.subrange(0, n)) + deeper(pad) + quoted(ms[n].0) + seq![':', ' ']
            + render_value(deeper(pad), ms[n].1) + seq![',', '\n']
    }
}

impl JsonModel {
    /// The document as a value.
    pub open spec fn root(self) -> ValueModel {
        match self {
            JsonModel::Object(m) => ValueModel::Object(m),
            JsonModel::Array(a) => ValueModel::Array(a),
        }
    }
}

/// A document as text: its root with no indentation, and a newline.
pub open spec fn render_document(d: JsonModel) -> Seq<char> {
    render_value(Seq::empty(), d.root()) + seq!['\n']
}

fn digit_char(d: u64) -> (r: char)
    requires
        d < 10,
    ensures
        r == digit_text(d as int),
{
    if d == 0 {
        '0'
    } else if d == 1 {
        '1'
    } else if d == 2 {
        '2'
    } else if d == 3 {
        '3'
    } else if d == 4 {
        '4'
    } else if d == 5 {
        '5'
    } else if d == 6 {
        '6'
    } else if d == 7 {
        '7'
    } else if d == 8 {
        '8'
    } else {
        '9'
    }
}

fn write_decimal(n: u64, out: &mut String)
    ensures
        final(out)@ == old(out)@ + decimal(n as nat),
    decreases n,
{
    if n >= 10 {
        write_decimal(n / 10, out);
    }
    out.push(digit_char(n % 10));
    assert(final(out)@ =~= old(out)@ + decimal(n as nat));
}

fn write_integer(i: i64, out: &mut String)
    ensures
        final(out)@ == old(out)@ + integer_text(i as int),
{
    if i < 0 {
        out.push('-');
        let magnitude = (-(i as i128)) as u64;
        write_decimal(magnitude, out);
        assert(final(out)@ =~= old(out)@ + integer_text(i as int));
    } else {
        write_decimal(i as u64, out);
    }
}

fn write_quoted(t: &String, out: &mut String)
    ensures
        final(out)@ == old(out)@ + quoted(t@),
{
    out.push('"');
    push_str(out, t);
    out.push('"');
    assert(final(out)@ =~= old(out)@ + quoted(t@));
}

/// Appends `v` as text, its children indented one step deeper than `pad`.
fn print_value(pad: &String, v: &JsonValue, out: &mut String)
    ensures
        final(out)@ == old(out)@ + render_value(pad@, v.model()),
    decreases v,
{
    match v {
        JsonValue::Boolean(b) => {
            if *b {
                out.push('t');
                out.push('r');
                out.push('u');
                out.push('e');
            } else {
                out.push('f');
                out.push('a');
                out.push('l');
                out.push('s');
                out.push('e');
            }
            assert(final(out)@ =~= old(out)@ + render_value(pad@, v.model()));
        },
        JsonValue::Float(t) => {
            push_str(out, t);
        },
        JsonValue::Integer(i) => {
            write_integer(*i, out);
        },
        JsonValue::String(t) => {
            write_quoted(t, out);
        },
        JsonValue::Array(items) => {
            proof {
                lemma_array_model(*items);
            }
            print_items(pad, items, out);
        },
        JsonValue::Object(members) => {
            proof {
                lemma_object_model(*members);
            }
            print_members(pad, members, out);
        },
    }
}

/// Appends an array whose closing bracket is indented by `pad`.
fn print_items(pad: &String, items: &Vec<JsonValue>, out: &mut String)
    ensures
        final(out)@ == old(out)@ + render_value(pad@, ValueModel::Array(models(items@))),
    decreases items,
{
    let ghost ms = models(items@);
    let ghost start = old(out)@;
    out.push('[');
    out.push('\n');
    let mut inner = pad.clone();
    inner.push(' ');
    inner.push(' ');
    let mut i: usize = 0;
    assert(ms.take(0) =~= Seq::<ValueModel>::empty());
    while i < items.len()
        invariant
            i <= items.len(),
            ms == models(items@),
            inner@ == deeper(pad@),
            out@ == start + seq!['[', '\n'] + render_items(pad@, ms.take(i as int)),
        decreases items.len() - i,
    {
        push_str(out, &inner);
        print_value(&inner, &items[i], out);
        out.push(',');
        out.push('\n');
        assert(ms.take(i + 1).subrange(0, i as int) =~= ms.take(i as int));
        assert(out@ =~= start + seq!['[', '\n'] + render_items(pad@, ms.take(i + 1)));
        i = i + 1;
    }
    assert(ms.take(i as int) =~= ms);
    push_str(out, pad);
    out.push(']');
    assert(final(out)@ =~= old(out)@ + render_value(pad@, ValueModel::Array(ms)));
}

/// Appends an object whose closing brace is indented by `pad`.
fn print_members(pad: &String, members: &Vec<(String, JsonValue)>, out: &mut String)
    ensures
        final(out)@ == old(out)@ + render_value(pad@, ValueModel::Object(member_models(members@))),
    decreases members,
{
    let ghost ms = member_models(members@);
    let ghost start = old(out)@;
    out.push('{');
    out.push('\n');
    let mut inner = pad.clone();
    inner.push(' ');
    inner.push(' ');
    let mut i: usize = 0;
    assert(ms.take(0) =~= Seq::<(Seq<char>, ValueModel)>::empty());
    while i < members.len()
        invariant
            i <= members.len(),
            ms == member_models(members@),
            inner@ == deeper(pad@),
            out@ == start + seq!['{', '\n'] + render_members(pad@, ms.take(i as int)),
        decreases members.len() - i,
    {
        push_str(out, &inner);
        write_quoted(&members[i].0, out);
        out.push(':');
        out.push(' ');
        print_value(&inner, &members[i].1, out);
        out.push(',');
        out.push('\n');
        assert(ms.take(i + 1).subrange(0, i as int) =~= ms.take(i as int));
        assert(out@ =~= start + seq!['{', '\n'] + render_members(pad@, ms.take(i + 1)));
        i = i + 1;
    }
    assert(ms.take(i as int) =~= ms);
    push_str(out, pad);
    out.push('}');
    assert(final(out)@ =~= old(out)@ + render_value(pad@, ValueModel::Object(ms)));
}

impl Json {
    /// The document as indented text.
    pub fn to_text(&self) -> (r: String)
        ensures
            r@ == render_document(self.model()),
    {
        let mut out = String::new();
        let pad = String::new();
        match self {
            Json::Object(m) => print_members(&pad, m, &mut out),
            Json::Array(a) => print_items(&pad, a, &mut out),
        }
        out.push('\n');
        assert(out@ =~= render_document(self.model()));
        out
    }
}

} // verus!
