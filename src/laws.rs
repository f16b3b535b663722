//! What holds between rendering and parsing.
use vstd::prelude::*;
use crate::grammar::{
    at, forward, insert_member, is_space, items, member, members, number_index, parse_json,
    quote_index, skip_space, string_rest, value, Cursor, ParseError,
};
use crate::json::{
    decimal, deeper, digit_text, integer_text, quoted, render_document, render_items,
    render_members, render_value, JsonModel, ValueModel,
};
use crate::number::{
    all_digits, digit_value, digits_value, integer_literal_value, is_digit_char, is_float_literal,
    occurrences, unsigned_part,
};

verus! {

/// A value that its text gives back: strings and keys hold no double quote,
/// floats are literals that start with a digit or `-`, integers fit in an
/// `i64`, and no object has a key twice.
pub open spec fn well_formed(v: ValueModel) -> bool
    decreases v,
{
    match v {
        ValueModel::Str(t) => !t.contains('"'),
        ValueModel::Int(i) => i64::MIN <= i <= i64::MAX,
        ValueModel::Float(t) => is_float_literal(t) && t.len() > 0 && (is_digit_char(t[0])
            || t[0] == '-'),
        ValueModel::Bool(_) => true,
        ValueModel::Array(items) => forall|i: int|
            0 <= i < items.len() ==> well_formed(#[trigger] items[i]),
        ValueModel::Object(ms) => {
            &&& forall|i: int, j: int| 0 <= i < j < ms.len() ==> ms[i].0 != ms[j].0
            &&& forall|i: int|
                0 <= i < ms.len() ==> !(#[trigger] ms[i]).0.contains('"') && well_formed(ms[i].1)
        },
    }
}

/// `t` stands in `s` from index `p` on.
pub open spec fn occurs_at(s: Seq<char>, p: int, t: Seq<char>) -> bool {
    0 <= p && p + t.len() <= s.len() && forall|i: int| 0 <= i < t.len() ==> s[p + i] == t[i]
}

pub open spec fn blank(w: Seq<char>) -> bool {
    forall|i: int| 0 <= i < w.len() ==> is_space(#[trigger] w[i])
}

proof fn lemma_split(s: Seq<char>, p: int, a: Seq<char>, b: Seq<char>)
    requires
        occurs_at(s, p, a + b),
    ensures
        occurs_at(s, p, a),
        occurs_at(s, p + a.len(), b),
{
    assert forall|i: int| 0 <= i < a.len() implies s[p + i] == a[i] by {
        assert((a + b)[i] == a[i]);
    }
    assert forall|i: int| 0 <= i < b.len() implies s[p + a.len() + i] == b[i] by {
        assert((a + b)[a.len() + i] == b[i]);
    }
}

proof fn lemma_skip_run(s: Seq<char>, p: int, w: Seq<char>, l: int)
    requires
        occurs_at(s, p, w),
        blank(w),
        p + w.len() < s.len(),
        !is_space(s[p + w.len()]),
    ensures
        skip_space(s, Cursor { pos: p, line: l }).pos == p + w.len(),
    decreases w.len(),
{
    if w.len() > 0 {
        assert(s[p] == w[0]);
        let line = if s[p] == '\n' { crate::grammar::next_line(l) } else { l };
        let rest = w.drop_first();
        assert(occurs_at(s, p + 1, rest)) by {
            assert forall|i: int| 0 <= i < rest.len() implies s[p + 1 + i] == rest[i] by {
                assert(s[p + (i + 1)] == w[i + 1]);
            }
        }
        lemma_skip_run(s, p + 1, rest, line);
    }
}

proof fn lemma_quote_run(s: Seq<char>, p: int, t: Seq<char>)
    requires
        occurs_at(s, p, t),
        !t.contains('"'),
        p + t.len() < s.len(),
        s[p + t.len()] == '"',
    ensures
        quote_index(s, p) == p + t.len(),
    decreases t.len(),
{
    if t.len() > 0 {
        assert(s[p] == t[0]);
        let rest = t.drop_first();
        assert(occurs_at(s, p + 1, rest) && !rest.contains('"')) by {
            assert forall|i: int| 0 <= i < rest.len() implies s[p + 1 + i] == rest[i] by {
                assert(s[p + (i + 1)] == t[i + 1]);
            }
            if rest.contains('"') {
                let j = choose|j: int| 0 <= j < rest.len() && rest[j] == '"';
                assert(t[j + 1] == '"');
            }
        }
        lemma_quote_run(s, p + 1, rest);
    }
}

proof fn lemma_number_run(s: Seq<char>, p: int, t: Seq<char>)
    requires
        occurs_at(s, p, t),
        forall|i: int| 0 <= i < t.len() ==> is_digit_char(#[trigger] t[i]) || t[i] == '.',
        p + t.len() < s.len(),
        !(is_digit_char(s[p + t.len()]) || s[p + t.len()] == '.'),
    ensures
        number_index(s, p) == p + t.len(),
    decreases t.len(),
{
    if t.len() > 0 {
        assert(s[p] == t[0]);
        let rest = t.drop_first();
        assert(occurs_at(s, p + 1, rest)) by {
            assert forall|i: int| 0 <= i < rest.len() implies s[p + 1 + i] == rest[i] by {
                assert(s[p + (i + 1)] == t[i + 1]);
            }
        }
        assert forall|i: int| 0 <= i < rest.len() implies is_digit_char(#[trigger] rest[i])
            || rest[i] == '.' by {
            assert(rest[i] == t[i + 1]);
        }
        lemma_number_run(s, p + 1, rest);
    }
}

proof fn lemma_digit_text(d: int)
    requires
        0 <= d < 10,
    ensures
        is_digit_char(digit_text(d)),
        digit_value(digit_text(d)) == d,
{
    let t = seq!['0', '1', '2', '3', '4', '5', '6', '7', '8', '9'];
    assert(t[0] == '0' && t[1] == '1' && t[2] == '2' && t[3] == '3' && t[4] == '4');
    assert(t[5] == '5' && t[6] == '6' && t[7] == '7' && t[8] == '8' && t[9] == '9');
}

proof fn lemma_decimal(n: nat)
    ensures
        decimal(n).len() > 0,
        all_digits(decimal(n)),
        digits_value(decimal(n)) == n,
    decreases n,
{
    reveal_with_fuel(crate::json::decimal, 2);
    lemma_digit_text((n % 10) as int);
    if n >= 10 {
        lemma_decimal(n / 10);
        let d = decimal(n);
        assert(d.drop_last() =~= decimal(n / 10));
        assert(d.last() == digit_text((n % 10) as int));
        assert(digits_value(d) == digits_value(d.drop_last()) * 10 + digit_value(d.last()));
        assert(n == (n / 10) * 10 + n % 10) by (nonlinear_arith);
    } else {
        let d = decimal(n);
        assert(d.drop_last() =~= Seq::<char>::empty());
        assert(d.last() == digit_text(n as int));
        assert(digits_value(d) == digits_value(d.drop_last()) * 10 + digit_value(d.last()));
    }
}

proof fn lemma_integer_text(i: int)
    requires
        i64::MIN <= i <= i64::MAX,
    ensures
        integer_literal_value(integer_text(i)) == Some(i),
        integer_text(i).len() > 0,
        is_digit_char(integer_text(i)[0]) || integer_text(i)[0] == '-',
        forall|j: int|
            1 <= j < integer_text(i).len() ==> is_digit_char(#[trigger] integer_text(i)[j]),
        !integer_text(i).contains('.'),
{
    let t = integer_text(i);
    if i < 0 {
        lemma_decimal((-i) as nat);
        assert(unsigned_part(t) =~= decimal((-i) as nat));
        assert forall|j: int| 1 <= j < t.len() implies is_digit_char(#[trigger] t[j]) by {
            assert(t[j] == decimal((-i) as nat)[j - 1]);
        }
    } else {
        lemma_decimal(i as nat);
        assert(unsigned_part(t) =~= t);
        assert(is_digit_char(t[0]));
    }
    if t.contains('.') {
        let j = choose|j: int| 0 <= j < t.len() && t[j] == '.';
        if j == 0 {
            assert(is_digit_char(t[0]) || t[0] == '-');
        } else {
            assert(is_digit_char(t[j]));
        }
    }
}

proof fn lemma_occurrences(t: Seq<char>, c: char)
    requires
        occurrences(t, c) > 0,
    ensures
        t.contains(c),
    decreases t.len(),
{
    if t.last() == c {
        assert(t[t.len() - 1] == c);
    } else {
        lemma_occurrences(t.drop_last(), c);
        let j = choose|j: int| 0 <= j < t.drop_last().len() && t.drop_last()[j] == c;
        assert(t[j] == c);
    }
}

proof fn lemma_first_char(pad: Seq<char>, v: ValueModel)
    requires
        well_formed(v),
    ensures
        render_value(pad, v).len() > 0,
        !is_space(render_value(pad, v)[0]),
        render_value(pad, v)[0] != ']',
        render_value(pad, v)[0] != '}',
        render_value(pad, v)[0] != ',',
{
    match v {
        ValueModel::Int(i) => lemma_integer_text(i),
        _ => {},
    }
}

/// Where the parse of a value rendered at `p`, `len` characters long,
/// stops: a container also takes the comma right after it.
pub open spec fn value_end(s: Seq<char>, v: ValueModel, p: int, len: int) -> int {
    if (v is Array || v is Object) && s[p + len] == ',' {
        p + len + 1
    } else {
        p + len
    }
}

/// Where the `k`th element of an array rendered from `base` on starts, or
/// its closing bracket when `k` is the number of elements.
pub open spec fn item_pos(pad: Seq<char>, items: Seq<ValueModel>, base: int, k: int) -> int {
    base + render_items(pad, items.take(k)).len() + if k < items.len() {
        deeper(pad).len()
    } else {
        pad.len()
    }
}

/// Where the key of the `k`th entry of an object rendered from `base` on
/// starts, or its closing brace when `k` is the number of entries.
pub open spec fn member_pos(pad: Seq<char>, ms: Seq<(Seq<char>, ValueModel)>, base: int, k: int) -> int {
    base + render_members(pad, ms.take(k)).len() + if k < ms.len() {
        deeper(pad).len()
    } else {
        pad.len()
    }
}

proof fn lemma_items_prefix(s: Seq<char>, p: int, pad: Seq<char>, items: Seq<ValueModel>, j: int)
    requires
        occurs_at(s, p, render_items(pad, items)),
        0 <= j <= items.len(),
    ensures
        occurs_at(s, p, render_items(pad, items.take(j))),
    decreases items.len(),
{
    if j == items.len() {
        assert(items.take(j) =~= items);
    } else {
        let n = items.len() - 1;
        let front = items.subrange(0, n);
        let line = deeper(pad) + render_value(deeper(pad), items[n]) + seq![',', '\n'];
        assert(render_items(pad, items) =~= render_items(pad, front) + line);
        lemma_split(s, p, render_items(pad, front), line);
        lemma_items_prefix(s, p, pad, front, j);
        assert(front.take(j) =~= items.take(j));
    }
}

proof fn lemma_members_prefix(
    s: Seq<char>,
    p: int,
    pad: Seq<char>,
    ms: Seq<(Seq<char>, ValueModel)>,
    j: int,
)
    requires
        occurs_at(s, p, render_members(pad, ms)),
        0 <= j <= ms.len(),
    ensures
        occurs_at(s, p, render_members(pad, ms.take(j))),
    decreases ms.len(),
{
    if j == ms.len() {
        assert(ms.take(j) =~= ms);
    } else {
        let n = ms.len() - 1;
        let front = ms.subrange(0, n);
        let line = deeper(pad) + quoted(ms[n].0) + seq![':', ' '] + render_value(deeper(pad), ms[n].1)
            + seq![',', '\n'];
        assert(render_members(pad, ms) =~= render_members(pad, front) + line);
        lemma_split(s, p, render_members(pad, front), line);
        lemma_members_prefix(s, p, pad, front, j);
        assert(front.take(j) =~= ms.take(j));
    }
}

proof fn lemma_skip_line(s: Seq<char>, a: int, w: Seq<char>, l: int)
    requires
        0 <= a < s.len(),
        s[a] == '\n',
        occurs_at(s, a + 1, w),
        blank(w),
        a + 1 + w.len() < s.len(),
        !is_space(s[a + 1 + w.len()]),
    ensures
        skip_space(s, Cursor { pos: a, line: l }).pos == a + 1 + w.len(),
{
    let t = seq!['\n'] + w;
    assert(occurs_at(s, a, t)) by {
        assert forall|i: int| 0 <= i < t.len() implies s[a + i] == t[i] by {
            if i > 0 {
                assert(t[i] == w[i - 1]);
                assert(s[a + 1 + (i - 1)] == w[i - 1]);
            }
        }
    }
    assert(blank(t)) by {
        assert forall|i: int| 0 <= i < t.len() implies is_space(#[trigger] t[i]) by {
            if i > 0 {
                assert(t[i] == w[i - 1]);
            }
        }
    }
    lemma_skip_run(s, a, t, l);
}

proof fn lemma_deeper_blank(pad: Seq<char>)
    requires
        blank(pad),
    ensures
        blank(deeper(pad)),
{
    let d = deeper(pad);
    assert forall|i: int| 0 <= i < d.len() implies is_space(#[trigger] d[i]) by {
        if i < pad.len() {
            assert(d[i] == pad[i]);
        }
    }
}

/// Where the text of an array's elements stands, from `base` on.
proof fn lemma_item_layout(s: Seq<char>, pad: Seq<char>, its: Seq<ValueModel>, base: int, k: int)
    requires
        occurs_at(s, base, render_items(pad, its) + pad + seq![']']),
        0 <= k <= its.len(),
    ensures
        ({
            let off = base + render_items(pad, its.take(k)).len();
            if k < its.len() {
                let rv = render_value(deeper(pad), its[k]);
                let v = off + deeper(pad).len();
                &&& occurs_at(s, off, deeper(pad))
                &&& occurs_at(s, v, rv)
                &&& s[v + rv.len()] == ','
                &&& s[v + rv.len() + 1] == '\n'
                &&& base + render_items(pad, its.take(k + 1)).len() == v + rv.len() + 2
            } else {
                &&& occurs_at(s, off, pad)
                &&& s[off + pad.len()] == ']'
                &&& off == base + render_items(pad, its).len()
            }
        }),
{
    let ri = render_items(pad, its);
    lemma_split(s, base, ri + pad, seq![']']);
    lemma_split(s, base, ri, pad);
    if k < its.len() {
        lemma_items_prefix(s, base, pad, its, k + 1);
        let t1 = its.take(k + 1);
        let pre = render_items(pad, its.take(k));
        let dp = deeper(pad);
        let rv = render_value(dp, its[k]);
        assert(t1.subrange(0, k) =~= its.take(k));
        assert(render_items(pad, t1) =~= pre + (dp + (rv + seq![',', '\n'])));
        lemma_split(s, base, pre, dp + (rv + seq![',', '\n']));
        lemma_split(s, base + pre.len(), dp, rv + seq![',', '\n']);
        lemma_split(s, base + pre.len() + dp.len(), rv, seq![',', '\n']);
        let e = base + pre.len() + dp.len() + rv.len();
        assert(s[e + 0] == seq![',', '\n'][0]);
        assert(s[e + 1] == seq![',', '\n'][1]);
    } else {
        assert(its.take(k) =~= its);
        assert(s[base + ri.len() + pad.len() + 0] == seq![']'][0]);
    }
}

/// Where the text of an object's entries stands, from `base` on.
proof fn lemma_member_layout(
    s: Seq<char>,
    pad: Seq<char>,
    ms: Seq<(Seq<char>, ValueModel)>,
    base: int,
    k: int,
)
    requires
        occurs_at(s, base, render_members(pad, ms) + pad + seq!['}']),
        0 <= k <= ms.len(),
    ensures
        ({
            let off = base + render_members(pad, ms.take(k)).len();
            if k < ms.len() {
                let key = ms[k].0;
                let rv = render_value(deeper(pad), ms[k].1);
                let p = off + deeper(pad).len();
                let v = p + key.len() + 4;
                &&& occurs_at(s, off, deeper(pad))
                &&& s[p] == '"'
                &&& occurs_at(s, p + 1, key)
                &&& s[p + 1 + key.len()] == '"'
                &&& s[p + 2 + key.len()] == ':'
                &&& s[p + 3 + key.len()] == ' '
                &&& occurs_at(s, v, rv)
                &&& s[v + rv.len()] == ','
                &&& s[v + rv.len() + 1] == '\n'
                &&& base + render_members(pad, ms.take(k + 1)).len() == v + rv.len() + 2
            } else {
                &&& occurs_at(s, off, pad)
                &&& s[off + pad.len()] == '}'
                &&& off == base + render_members(pad, ms).len()
            }
        }),
{
    let rm = render_members(pad, ms);
    lemma_split(s, base, rm + pad, seq!['}']);
    lemma_split(s, base, rm, pad);
    if k < ms.len() {
        lemma_members_prefix(s, base, pad, ms, k + 1);
        let t1 = ms.take(k + 1);
        let pre = render_members(pad, ms.take(k));
        let dp = deeper(pad);
        let key = ms[k].0;
        let rv = render_value(dp, ms[k].1);
        let head = seq!['"'] + key + seq!['"', ':', ' '];
        let tail = seq![',', '\n'];
        assert(t1.subrange(0, k) =~= ms.take(k));
        assert(render_members(pad, t1) =~= pre + (dp + (head + (rv + tail))));
        lemma_split(s, base, pre, dp + (head + (rv + tail)));
        lemma_split(s, base + pre.len(), dp, head + (rv + tail));
        let p = base + pre.len() + dp.len();
        lemma_split(s, p, head, rv + tail);
        lemma_split(s, p + head.len(), rv, tail);
        assert(s[p + 0] == head[0]);
        assert forall|i: int| 0 <= i < key.len() implies s[p + 1 + i] == key[i] by {
            assert(s[p + (1 + i)] == head[1 + i]);
        }
        assert(s[p + (1 + key.len())] == head[1 + key.len() as int]);
        assert(s[p + (2 + key.len())] == head[2 + key.len() as int]);
        assert(s[p + (3 + key.len())] == head[3 + key.len() as int]);
        let e = p + head.len() + rv.len();
        assert(s[e + 0] == tail[0]);
        assert(s[e + 1] == tail[1]);
    } else {
        assert(ms.take(k) =~= ms);
        assert(s[base + rm.len() + pad.len() + 0] == seq!['}'][0]);
    }
}

proof fn lemma_bool_value(s: Seq<char>, p: int, l: int, pad: Seq<char>, v: ValueModel)
    requires
        well_formed(v),
        v is Bool,
        blank(pad),
        occurs_at(s, p, render_value(pad, v)),
        p + render_value(pad, v).len() < s.len(),
        s[p + render_value(pad, v).len()] == ',' || s[p + render_value(pad, v).len()] == '\n',
    ensures
        value(s, Cursor { pos: p, line: l }) matches Ok((m, e)) && m == v && e.pos == value_end(
            s,
            v,
            p,
            render_value(pad, v).len() as int,
        ),
{
    let r = render_value(pad, v);
    let q = p + r.len();
    lemma_first_char(pad, v);
    assert(s[p + 0] == r[0]);
    let b = v->Bool_0;
        if b {
            assert(s.subrange(p + 1, p + 4) =~= seq!['r', 'u', 'e']) by {
                assert(s[p + 1] == r[1] && s[p + 2] == r[2] && s[p + 3] == r[3]);
            }
        } else {
            assert(s.subrange(p + 1, p + 5) =~= seq!['a', 'l', 's', 'e']) by {
                assert(s[p + 1] == r[1] && s[p + 2] == r[2] && s[p + 3] == r[3] && s[p + 4]
                    == r[4]);
            }
        }
}

proof fn lemma_string_value(s: Seq<char>, p: int, l: int, pad: Seq<char>, v: ValueModel)
    requires
        well_formed(v),
        v is Str,
        blank(pad),
        occurs_at(s, p, render_value(pad, v)),
        p + render_value(pad, v).len() < s.len(),
        s[p + render_value(pad, v).len()] == ',' || s[p + render_value(pad, v).len()] == '\n',
    ensures
        value(s, Cursor { pos: p, line: l }) matches Ok((m, e)) && m == v && e.pos == value_end(
            s,
            v,
            p,
            render_value(pad, v).len() as int,
        ),
{
    let r = render_value(pad, v);
    let q = p + r.len();
    lemma_first_char(pad, v);
    assert(s[p + 0] == r[0]);
    let t = v->Str_0;
        assert(r =~= seq!['"'] + (t + seq!['"']));
        lemma_split(s, p, seq!['"'], t + seq!['"']);
        lemma_split(s, p + 1, t, seq!['"']);
        assert(s[p + 1 + t.len() + 0] == seq!['"'][0]);
        lemma_quote_run(s, p + 1, t);
        assert(s.subrange(p + 1, p + 1 + t.len()) =~= t);
}

proof fn lemma_integer_value(s: Seq<char>, p: int, l: int, pad: Seq<char>, v: ValueModel)
    requires
        well_formed(v),
        v is Int,
        blank(pad),
        occurs_at(s, p, render_value(pad, v)),
        p + render_value(pad, v).len() < s.len(),
        s[p + render_value(pad, v).len()] == ',' || s[p + render_value(pad, v).len()] == '\n',
    ensures
        value(s, Cursor { pos: p, line: l }) matches Ok((m, e)) && m == v && e.pos == value_end(
            s,
            v,
            p,
            render_value(pad, v).len() as int,
        ),
{
    let r = render_value(pad, v);
    let q = p + r.len();
    lemma_first_char(pad, v);
    assert(s[p + 0] == r[0]);
    let i = v->Int_0;
        lemma_integer_text(i);
        let rest = r.drop_first();
        assert(occurs_at(s, p + 1, rest)) by {
            assert forall|j: int| 0 <= j < rest.len() implies s[p + 1 + j] == rest[j] by {
                assert(s[p + (j + 1)] == r[j + 1]);
            }
        }
        assert forall|j: int| 0 <= j < rest.len() implies is_digit_char(#[trigger] rest[j])
            || rest[j] == '.' by {
            assert(rest[j] == r[j + 1]);
        }
        lemma_number_run(s, p + 1, rest);
        assert(s.subrange(p, q) =~= r);
}

proof fn lemma_float_value(s: Seq<char>, p: int, l: int, pad: Seq<char>, v: ValueModel)
    requires
        well_formed(v),
        v is Float,
        blank(pad),
        occurs_at(s, p, render_value(pad, v)),
        p + render_value(pad, v).len() < s.len(),
        s[p + render_value(pad, v).len()] == ',' || s[p + render_value(pad, v).len()] == '\n',
    ensures
        value(s, Cursor { pos: p, line: l }) matches Ok((m, e)) && m == v && e.pos == value_end(
            s,
            v,
            p,
            render_value(pad, v).len() as int,
        ),
{
    let r = render_value(pad, v);
    let q = p + r.len();
    lemma_first_char(pad, v);
    assert(s[p + 0] == r[0]);
    let t = v->Float_0;
        let rest = t.drop_first();
        let body = unsigned_part(t);
        assert(occurs_at(s, p + 1, rest)) by {
            assert forall|j: int| 0 <= j < rest.len() implies s[p + 1 + j] == rest[j] by {
                assert(s[p + (j + 1)] == t[j + 1]);
            }
        }
        assert forall|j: int| 0 <= j < rest.len() implies is_digit_char(#[trigger] rest[j])
            || rest[j] == '.' by {
            assert(rest[j] == t[j + 1]);
            if t[0] == '-' {
                assert(body[j] == rest[j]);
            } else {
                assert(body[j + 1] == rest[j]);
            }
        }
        lemma_number_run(s, p + 1, rest);
        assert(s.subrange(p, q) =~= t);
        lemma_occurrences(body, '.');
        let j = choose|j: int| 0 <= j < body.len() && body[j] == '.';
        if t[0] == '-' {
            assert(t[j + 1] == '.');
        } else {
            assert(t[j] == '.');
        }
}

proof fn lemma_array_value(s: Seq<char>, p: int, l: int, pad: Seq<char>, v: ValueModel)
    requires
        well_formed(v),
        v is Array,
        blank(pad),
        occurs_at(s, p, render_value(pad, v)),
        p + render_value(pad, v).len() < s.len(),
        s[p + render_value(pad, v).len()] == ',' || s[p + render_value(pad, v).len()] == '\n',
    ensures
        value(s, Cursor { pos: p, line: l }) matches Ok((m, e)) && m == v && e.pos == value_end(
            s,
            v,
            p,
            render_value(pad, v).len() as int,
        ),
    decreases v, 1int,
{
    let r = render_value(pad, v);
    let q = p + r.len();
    lemma_first_char(pad, v);
    assert(s[p + 0] == r[0]);
    let its = v->Array_0;
        let ri = render_items(pad, its);
        let base = p + 2;
        assert(r =~= seq!['['] + (seq!['\n'] + (ri + pad + seq![']'])));
        lemma_split(s, p, seq!['['], seq!['\n'] + (ri + pad + seq![']']));
        lemma_split(s, p + 1, seq!['\n'], ri + pad + seq![']']);
        assert(s[p + 1 + 0] == seq!['\n'][0]);
        lemma_item_layout(s, pad, its, base, 0);
        assert(its.take(0) =~= Seq::<ValueModel>::empty());
        lemma_deeper_blank(pad);
        if its.len() > 0 {
            lemma_first_char(deeper(pad), its[0]);
            assert(s[base + deeper(pad).len() + 0] == render_value(deeper(pad), its[0])[0]);
            lemma_skip_line(s, p + 1, deeper(pad), l);
        } else {
            lemma_skip_line(s, p + 1, pad, l);
        }
        let c1 = skip_space(s, Cursor { pos: p + 1, line: l });
        lemma_items(s, pad, its, base, 0, c1.line);
}

proof fn lemma_object_value(s: Seq<char>, p: int, l: int, pad: Seq<char>, v: ValueModel)
    requires
        well_formed(v),
        v is Object,
        blank(pad),
        occurs_at(s, p, render_value(pad, v)),
        p + render_value(pad, v).len() < s.len(),
        s[p + render_value(pad, v).len()] == ',' || s[p + render_value(pad, v).len()] == '\n',
    ensures
        value(s, Cursor { pos: p, line: l }) matches Ok((m, e)) && m == v && e.pos == value_end(
            s,
            v,
            p,
            render_value(pad, v).len() as int,
        ),
    decreases v, 1int,
{
    let r = render_value(pad, v);
    let q = p + r.len();
    lemma_first_char(pad, v);
    assert(s[p + 0] == r[0]);
    let ms = v->Object_0;
        let rm = render_members(pad, ms);
        let base = p + 2;
        assert(r =~= seq!['{'] + (seq!['\n'] + (rm + pad + seq!['}'])));
        lemma_split(s, p, seq!['{'], seq!['\n'] + (rm + pad + seq!['}']));
        lemma_split(s, p + 1, seq!['\n'], rm + pad + seq!['}']);
        assert(s[p + 1 + 0] == seq!['\n'][0]);
        lemma_member_layout(s, pad, ms, base, 0);
        assert(ms.take(0) =~= Seq::<(Seq<char>, ValueModel)>::empty());
        lemma_deeper_blank(pad);
        if ms.len() > 0 {
            lemma_skip_line(s, p + 1, deeper(pad), l);
        } else {
            lemma_skip_line(s, p + 1, pad, l);
        }
        let c1 = skip_space(s, Cursor { pos: p + 1, line: l });
        lemma_members(s, pad, ms, base, 0, c1.line);
}

proof fn lemma_value(s: Seq<char>, p: int, l: int, pad: Seq<char>, v: ValueModel)
    requires
        well_formed(v),
        blank(pad),
        occurs_at(s, p, render_value(pad, v)),
        p + render_value(pad, v).len() < s.len(),
        s[p + render_value(pad, v).len()] == ',' || s[p + render_value(pad, v).len()] == '\n',
    ensures
        value(s, Cursor { pos: p, line: l }) matches Ok((m, e)) && m == v && e.pos == value_end(
            s,
            v,
            p,
            render_value(pad, v).len() as int,
        ),
    decreases v, 2int,
{
    match v {
        ValueModel::Bool(_) => lemma_bool_value(s, p, l, pad, v),
        ValueModel::Str(_) => lemma_string_value(s, p, l, pad, v),
        ValueModel::Int(_) => lemma_integer_value(s, p, l, pad, v),
        ValueModel::Float(_) => lemma_float_value(s, p, l, pad, v),
        ValueModel::Array(_) => lemma_array_value(s, p, l, pad, v),
        ValueModel::Object(_) => lemma_object_value(s, p, l, pad, v),
    }
}

/// Where the parse of a container whose closing bracket is just before
/// `end` stops.
pub open spec fn closed_at(s: Seq<char>, end: int) -> int {
    if s[end] == ',' {
        end + 1
    } else {
        end
    }
}

proof fn lemma_items(s: Seq<char>, pad: Seq<char>, its: Seq<ValueModel>, base: int, k: int, l: int)
    requires
        forall|i: int| 0 <= i < its.len() ==> well_formed(#[trigger] its[i]),
        blank(pad),
        occurs_at(s, base, render_items(pad, its) + pad + seq![']']),
        base + render_items(pad, its).len() + pad.len() + 1 < s.len(),
        s[base + render_items(pad, its).len() + pad.len() + 1] == ',' || s[base + render_items(
            pad,
            its,
        ).len() + pad.len() + 1] == '\n',
        0 <= k <= its.len(),
    ensures
        items(s, Cursor { pos: item_pos(pad, its, base, k), line: l }, its.take(k)) matches Ok(
            (m, e),
        ) && m == its && e.pos == closed_at(
            s,
            base + render_items(pad, its).len() + pad.len() + 1,
        ),
    decreases its, its.len() - k,
{
    let n = its.len();
    let c = Cursor { pos: item_pos(pad, its, base, k), line: l };
    lemma_item_layout(s, pad, its, base, k);
    lemma_deeper_blank(pad);
    if k < n {
        let dp = deeper(pad);
        let rv = render_value(dp, its[k]);
        let pos = c.pos;
        let q = pos + rv.len();
        lemma_first_char(dp, its[k]);
        assert(s[pos + 0] == rv[0]);
        lemma_item_layout(s, pad, its, base, k + 1);
        assert(decreases_to!(its => its[k]));
        lemma_value(s, pos, l, dp, its[k]);
        let next = item_pos(pad, its, base, k + 1);
        let w = if k + 1 < n { dp } else { pad };
        if k + 1 < n {
            lemma_first_char(dp, its[k + 1]);
            assert(s[next + 0] == render_value(dp, its[k + 1])[0]);
        }
        assert(next == q + 2 + w.len());
        let e = value(s, c)->Ok_0.1;
        if e.pos == q {
            assert(skip_space(s, e) == e);
            lemma_skip_line(s, q + 1, w, e.line);
        } else {
            lemma_skip_line(s, q + 1, w, e.line);
            let e1 = skip_space(s, e);
            assert(skip_space(s, e1) == e1);
        }
        assert(its.take(k).push(its[k]) =~= its.take(k + 1));
        let e3 = {
            let e1 = skip_space(s, e);
            let e2 = if at(s, e1, ',') { forward(e1, 1) } else { e1 };
            skip_space(s, e2)
        };
        assert(e3.pos == next);
        lemma_items(s, pad, its, base, k + 1, e3.line);
        assert(e3 == Cursor { pos: next, line: e3.line });
    } else {
        assert(its.take(k) =~= its);
    }
}

proof fn lemma_members(
    s: Seq<char>,
    pad: Seq<char>,
    ms: Seq<(Seq<char>, ValueModel)>,
    base: int,
    k: int,
    l: int,
)
    requires
        forall|i: int, j: int| 0 <= i < j < ms.len() ==> ms[i].0 != ms[j].0,
        forall|i: int|
            0 <= i < ms.len() ==> !(#[trigger] ms[i]).0.contains('"') && well_formed(ms[i].1),
        blank(pad),
        occurs_at(s, base, render_members(pad, ms) + pad + seq!['}']),
        base + render_members(pad, ms).len() + pad.len() + 1 < s.len(),
        s[base + render_members(pad, ms).len() + pad.len() + 1] == ',' || s[base
            + render_members(pad, ms).len() + pad.len() + 1] == '\n',
        0 <= k <= ms.len(),
    ensures
        members(s, Cursor { pos: member_pos(pad, ms, base, k), line: l }, ms.take(k)) matches Ok(
            (m, e),
        ) && m == ms && e.pos == closed_at(
            s,
            base + render_members(pad, ms).len() + pad.len() + 1,
        ),
    decreases ms, ms.len() - k,
{
    let n = ms.len();
    let c = Cursor { pos: member_pos(pad, ms, base, k), line: l };
    lemma_member_layout(s, pad, ms, base, k);
    lemma_deeper_blank(pad);
    if k < n {
        let dp = deeper(pad);
        let key = ms[k].0;
        let rv = render_value(dp, ms[k].1);
        let p = c.pos;
        let vpos = p + key.len() + 4;
        let q = vpos + rv.len();
        // The key.
        lemma_quote_run(s, p + 1, key);
        assert(s.subrange(p + 1, p + 1 + key.len()) =~= key);
        let ke = Cursor { pos: p + key.len() + 2, line: l };
        assert(string_rest(s, forward(c, 1)) == Ok::<(Seq<char>, Cursor), ParseError>((key, ke)));
        assert(skip_space(s, ke) == ke);
        assert(at(s, ke, ':'));
        // The value.
        lemma_member_layout(s, pad, ms, base, k + 1);
        lemma_first_char(dp, ms[k].1);
        assert(s[vpos + 0] == rv[0]);
        lemma_skip_run(s, p + key.len() + 3, seq![' '], l);
        assert(occurs_at(s, p + key.len() + 3, seq![' ']));
        let e2 = skip_space(s, forward(ke, 1));
        assert(e2.pos == vpos);
        assert(decreases_to!(ms => ms[k]));
        assert(decreases_to!(ms[k] => ms[k].1));
        lemma_value(s, vpos, e2.line, dp, ms[k].1);
        assert(e2 == Cursor { pos: vpos, line: e2.line });
        let e = value(s, e2)->Ok_0.1;
        assert(member(s, forward(c, 1)) == Ok::<((Seq<char>, ValueModel), Cursor), ParseError>(
            ((key, ms[k].1), e),
        ));
        // The entry goes in at the end.
        assert(!(exists|i: int| 0 <= i < ms.take(k).len() && ms.take(k)[i].0 == key)) by {
            if exists|i: int| 0 <= i < ms.take(k).len() && ms.take(k)[i].0 == key {
                let i = choose|i: int| 0 <= i < ms.take(k).len() && ms.take(k)[i].0 == key;
                assert(ms[i].0 != ms[k].0);
            }
        }
        assert(insert_member(ms.take(k), key, ms[k].1) =~= ms.take(k + 1));
        // On to the next entry.
        let next = member_pos(pad, ms, base, k + 1);
        let w = if k + 1 < n { dp } else { pad };
        assert(next == q + 2 + w.len());
        let e1 = skip_space(s, e);
        if e.pos == q {
            assert(e1 == e);
            lemma_skip_line(s, q + 1, w, e.line);
            let e3 = skip_space(s, forward(e, 1));
            assert(members(s, e1, ms.take(k + 1)) == members(s, e3, ms.take(k + 1)));
            lemma_members(s, pad, ms, base, k + 1, e3.line);
            assert(e3 == Cursor { pos: next, line: e3.line });
        } else {
            lemma_skip_line(s, q + 1, w, e.line);
            lemma_members(s, pad, ms, base, k + 1, e1.line);
            assert(e1 == Cursor { pos: next, line: e1.line });
        }
    } else {
        assert(ms.take(k) =~= ms);
    }
}

pub open spec fn distinct_keys(m: Seq<(Seq<char>, ValueModel)>) -> bool {
    forall|i: int, j: int| 0 <= i < j < m.len() ==> m[i].0 != m[j].0
}

/// The last write wins: binding a key in entries with distinct keys keeps
/// the keys distinct, binds that key to the new value, keeps every entry
/// with another key, and adds an entry only when the key was new.
pub proof fn lemma_last_write_wins(m: Seq<(Seq<char>, ValueModel)>, k: Seq<char>, v: ValueModel)
    requires
        distinct_keys(m),
    ensures
        distinct_keys(insert_member(m, k, v)),
        insert_member(m, k, v).contains((k, v)),
        forall|j: int| 0 <= j < m.len() && m[j].0 != k ==> insert_member(m, k, v).contains(m[j]),
        insert_member(m, k, v).len() == m.len() + if exists|i: int| 0 <= i < m.len() && m[i].0 == k {
            0int
        } else {
            1int
        },
{
    let r = insert_member(m, k, v);
    if exists|i: int| 0 <= i < m.len() && m[i].0 == k {
        let w = choose|i: int| 0 <= i < m.len() && m[i].0 == k;
        assert(forall|j: int| 0 <= j < w ==> m[j].0 != k);
        let i = choose|i: int|
            0 <= i < m.len() && m[i].0 == k && forall|j: int| 0 <= j < i ==> m[j].0 != k;
        assert(r[i] == (k, v));
        assert forall|j: int| 0 <= j < m.len() && m[j].0 != k implies r.contains(m[j]) by {
            assert(r[j] == m[j]);
        }
    } else {
        assert(r[m.len() as int] == (k, v));
        assert forall|j: int| 0 <= j < m.len() && m[j].0 != k implies r.contains(m[j]) by {
            assert(r[j] == m[j]);
        }
    }
}

/// No object anywhere in `v` has a key twice.
pub open spec fn keys_distinct(v: ValueModel) -> bool
    decreases v,
{
    match v {
        ValueModel::Array(items) => forall|i: int|
            0 <= i < items.len() ==> keys_distinct(#[trigger] items[i]),
        ValueModel::Object(ms) => {
            &&& distinct_keys(ms)
            &&& forall|i: int| 0 <= i < ms.len() ==> keys_distinct((#[trigger] ms[i]).1)
        },
        _ => true,
    }
}

pub open spec fn entries_keys_distinct(ms: Seq<(Seq<char>, ValueModel)>) -> bool {
    &&& distinct_keys(ms)
    &&& forall|i: int| 0 <= i < ms.len() ==> keys_distinct((#[trigger] ms[i]).1)
}

proof fn lemma_insert_keys_distinct(m: Seq<(Seq<char>, ValueModel)>, k: Seq<char>, v: ValueModel)
    requires
        entries_keys_distinct(m),
        keys_distinct(v),
    ensures
        entries_keys_distinct(insert_member(m, k, v)),
{
    lemma_last_write_wins(m, k, v);
    let r = insert_member(m, k, v);
    assert forall|i: int| 0 <= i < r.len() implies keys_distinct((#[trigger] r[i]).1) by {
        if i < m.len() && r[i] != m[i] {
            assert(r[i] == (k, v));
        }
        if i == m.len() {
            assert(r[i] == (k, v));
        }
    }
}

proof fn lemma_value_keys(s: Seq<char>, c: Cursor)
    ensures
        value(s, c) matches Ok((v, _)) ==> keys_distinct(v),
    decreases s.len() - c.pos, 0int,
{
    if 0 <= c.pos < s.len() {
        let n = forward(c, 1);
        crate::grammar::lemma_skip_space_forward(s, n);
        let ch = s[c.pos];
        if ch == '{' {
            lemma_members_keys(s, skip_space(s, n), Seq::empty());
        } else if ch == '[' {
            lemma_items_keys(s, skip_space(s, n), Seq::empty());
        }
    }
}

proof fn lemma_items_keys(s: Seq<char>, c: Cursor, acc: Seq<ValueModel>)
    requires
        forall|i: int| 0 <= i < acc.len() ==> keys_distinct(#[trigger] acc[i]),
    ensures
        items(s, c, acc) matches Ok((m, _)) ==> forall|i: int|
            0 <= i < m.len() ==> keys_distinct(#[trigger] m[i]),
    decreases s.len() - c.pos, 1int,
{
    if !at(s, c, ']') {
        lemma_value_keys(s, c);
        if let Ok((v, e)) = value(s, c) {
            let e1 = skip_space(s, e);
            let e2 = if at(s, e1, ',') { forward(e1, 1) } else { e1 };
            let e3 = skip_space(s, e2);
            if 0 <= c.pos < e3.pos <= s.len() {
                let acc2 = acc.push(v);
                assert forall|i: int| 0 <= i < acc2.len() implies keys_distinct(#[trigger] acc2[i]) by {
                    if i < acc.len() {
                        assert(acc2[i] == acc[i]);
                    }
                }
                lemma_items_keys(s, e3, acc2);
            }
        }
    }
}

proof fn lemma_members_keys(s: Seq<char>, c: Cursor, acc: Seq<(Seq<char>, ValueModel)>)
    requires
        entries_keys_distinct(acc),
    ensures
        members(s, c, acc) matches Ok((m, _)) ==> entries_keys_distinct(m),
    decreases s.len() - c.pos, 1int,
{
    if !at(s, c, '}') && 0 <= c.pos < s.len() {
        if s[c.pos] == '"' {
            lemma_member_keys(s, forward(c, 1));
            if let Ok((kv, e)) = member(s, forward(c, 1)) {
                let e1 = skip_space(s, e);
                if c.pos < e1.pos <= s.len() {
                    lemma_insert_keys_distinct(acc, kv.0, kv.1);
                    lemma_members_keys(s, e1, insert_member(acc, kv.0, kv.1));
                }
            }
        } else {
            crate::grammar::lemma_skip_space_forward(s, forward(c, 1));
            lemma_members_keys(s, skip_space(s, forward(c, 1)), acc);
        }
    }
}

proof fn lemma_member_keys(s: Seq<char>, c: Cursor)
    ensures
        member(s, c) matches Ok((kv, _)) ==> keys_distinct(kv.1),
    decreases s.len() - c.pos, 1int,
{
    if let Ok((k, e)) = string_rest(s, c) {
        let e1 = skip_space(s, e);
        if at(s, e1, ':') {
            crate::grammar::lemma_quote_index(s, c.pos);
            crate::grammar::lemma_skip_space_forward(s, e);
            crate::grammar::lemma_skip_space_forward(s, forward(e1, 1));
            lemma_value_keys(s, skip_space(s, forward(e1, 1)));
        }
    }
}

/// Every object in what a text parses to has each of its keys once, at
/// every depth.
pub proof fn lemma_parsed_keys_distinct(s: Seq<char>)
    ensures
        parse_json(s) matches Ok(d) ==> keys_distinct(d.root()),
{
    let c1 = skip_space(s, Cursor { pos: 0, line: 1 });
    crate::grammar::lemma_skip_space_forward(s, Cursor { pos: 0, line: 1 });
    if 0 <= c1.pos < s.len() {
        crate::grammar::lemma_skip_space_forward(s, forward(c1, 1));
        lemma_members_keys(s, skip_space(s, forward(c1, 1)), Seq::empty());
        lemma_items_keys(s, skip_space(s, forward(c1, 1)), Seq::empty());
    }
}

/// Whitespace does not change what a document parses to: a well-formed
/// document written after any run of whitespace `lead`, with any run of
/// whitespace `pad` before its closing bracket (and its children indented two
/// spaces deeper than `pad`), and followed after its last newline by any
/// text at all, parses to that document.
pub proof fn lemma_whitespace_runs(d: JsonModel, lead: Seq<char>, pad: Seq<char>, rest: Seq<char>)
    requires
        well_formed(d.root()),
        blank(lead),
        blank(pad),
    ensures
        parse_json(lead + render_value(pad, d.root()) + seq!['\n'] + rest) == Ok::<
            JsonModel,
            ParseError,
        >(d),
{
    let r = render_value(pad, d.root());
    let s = lead + r + seq!['\n'] + rest;
    let p = lead.len() as int;
    assert(occurs_at(s, 0, lead)) by {
        assert forall|i: int| 0 <= i < lead.len() implies s[0 + i] == lead[i] by {
            assert(s[i] == lead[i]);
        }
    }
    assert(occurs_at(s, p, r)) by {
        assert forall|i: int| 0 <= i < r.len() implies s[p + i] == r[i] by {
            assert(s[p + i] == r[i]);
        }
    }
    assert(s[p + r.len()] == '\n');
    lemma_first_char(pad, d.root());
    assert(s[p] == r[0]);
    let c = Cursor { pos: 0, line: 1 };
    lemma_skip_run(s, 0, lead, 1);
    let c1 = skip_space(s, c);
    lemma_value(s, p, c1.line, pad, d.root());
    assert(c1 == Cursor { pos: p, line: c1.line });
}

/// Round trip: the text of a well-formed document parses back to that same
/// document, with the same kind of value at every position, the same
/// strings, integers, float literals and booleans, and the same keys.
pub proof fn lemma_round_trip(d: JsonModel)
    requires
        well_formed(d.root()),
    ensures
        parse_json(render_document(d)) == Ok::<JsonModel, ParseError>(d),
{
    let e = Seq::<char>::empty();
    lemma_whitespace_runs(d, e, e, e);
    assert(e + render_value(e, d.root()) + seq!['\n'] + e =~= render_document(d));
}

} // verus!
