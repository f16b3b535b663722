use vstd::prelude::*;

verus! {

pub open spec fn is_digit_char(c: char) -> bool {
    '0' <= c && c <= '9'
}

pub open spec fn digit_value(c: char) -> int {
    c as int - '0' as int
}

/// The number that a run of decimal digits stands for.
pub open spec fn digits_value(s: Seq<char>) -> int
    decreases s.len(),
{
    if s.len() == 0 {
        0
    } else {
        digits_value(s.drop_last()) * 10 + digit_value(s.last())
    }
}

pub open spec fn all_digits(s: Seq<char>) -> bool {
    forall|i: int| 0 <= i < s.len() ==> is_digit_char(#[trigger] s[i])
}

/// How many times `c` occurs in `s`.
pub open spec fn occurrences(s: Seq<char>, c: char) -> nat
    decreases s.len(),
{
    if s.len() == 0 {
        0
    } else {
        occurrences(s.drop_last(), c) + if s.last() == c { 1nat } else { 0nat }
    }
}

/// `s` without its leading minus sign, if it has one.
pub open spec fn unsigned_part(s: Seq<char>) -> Seq<char> {
    if s.len() > 0 && s[0] == '-' {
        s.drop_first()
    } else {
        s
    }
}

/// The value of an integer literal (an optional `-` and at least one
/// digit) when it fits in an `i64`; `None` for any other text.
pub open spec fn integer_literal_value(s: Seq<char>) -> Option<int> {
    let body = unsigned_part(s);
    let v = if s.len() > 0 && s[0] == '-' { -digits_value(body) } else { digits_value(body) };
    if body.len() > 0 && all_digits(body) && i64::MIN <= v <= i64::MAX {
        Some(v)
    } else {
        None
    }
}

/// A float literal: an optional `-`, then digits and exactly one `.`, with
/// at least one digit.
pub open spec fn is_float_literal(s: Seq<char>) -> bool {
    let body = unsigned_part(s);
    &&& forall|i: int| 0 <= i < body.len() ==> is_digit_char(#[trigger] body[i]) || body[i] == '.'
    &&& occurrences(body, '.') == 1
    &&& exists|i: int| 0 <= i < body.len() && is_digit_char(#[trigger] body[i])
}

pub fn is_digit(c: char) -> (r: bool)
    ensures
        r == is_digit_char(c),
{
    c >= '0' && c <= '9'
}

const CAP: u128 = 9223372036854775809;

/// The value of the integer literal `chars[from..to]`, if it is one and
/// fits in an `i64`.
pub fn integer_value(chars: &Vec<char>, from: usize, to: usize) -> (r: Option<i64>)
    requires
        from <= to <= chars.len(),
    ensures
        match r {
            Some(v) => integer_literal_value(chars@.subrange(from as int, to as int)) == Some(
                v as int,
            ),
            None => integer_literal_value(chars@.subrange(from as int, to as int)) is None,
        },
{
    let ghost s = chars@.subrange(from as int, to as int);
    let negative = from < to && chars[from] == '-';
    let first: usize = if negative { from + 1 } else { from };
    let ghost body = chars@.subrange(first as int, to as int);
    assert(body =~= unsigned_part(s));
    if first == to {
        return None;
    }
    // The value of the digits read so far, held at `CAP` once it passes it.
    let mut acc: u128 = 0;
    let mut i: usize = first;
    while i < to
        invariant
            first <= i <= to <= chars.len(),
            body == chars@.subrange(first as int, to as int),
            s == chars@.subrange(from as int, to as int),
            body == unsigned_part(s),
            all_digits(chars@.subrange(first as int, i as int)),
            acc as int == if digits_value(chars@.subrange(first as int, i as int)) < CAP {
                digits_value(chars@.subrange(first as int, i as int))
            } else {
                CAP as int
            },
            digits_value(chars@.subrange(first as int, i as int)) >= 0,
        decreases to - i,
    {
        let c = chars[i];
        let ghost pre = chars@.subrange(first as int, i as int);
        let ghost next = chars@.subrange(first as int, i + 1);
        assert(next.drop_last() =~= pre);
        if !is_digit(c) {
            assert(!all_digits(body)) by {
                assert(body[i - first] == c);
            }
            return None;
        }
        let d = (c as u32 - '0' as u32) as u128;
        if acc >= CAP {
            acc = CAP;
        } else {
            let n = acc * 10 + d;
            acc = if n < CAP { n } else { CAP };
        }
        assert(digits_value(next) == digits_value(pre) * 10 + d);
        i = i + 1;
    }
    assert(chars@.subrange(first as int, i as int) =~= body);
    if negative {
        if acc == CAP {
            return None;
        }
        Some(-(acc as i128) as i64)
    } else {
        if acc > 9223372036854775807 {
            return None;
        }
        Some(acc as i64)
    }
}

/// Whether `chars[from..to]` is a float literal.
pub fn float_literal_ok(chars: &Vec<char>, from: usize, to: usize) -> (r: bool)
    requires
        from <= to <= chars.len(),
    ensures
        r == is_float_literal(chars@.subrange(from as int, to as int)),
{
    let ghost s = chars@.subrange(from as int, to as int);
    let first: usize = if from < to && chars[from] == '-' { from + 1 } else { from };
    let ghost body = chars@.subrange(first as int, to as int);
    assert(body =~= unsigned_part(s));
    let mut dots: usize = 0;
    let mut digits: bool = false;
    let mut i: usize = first;
    while i < to
        invariant
            first <= i <= to <= chars.len(),
            body == chars@.subrange(first as int, to as int),
            s == chars@.subrange(from as int, to as int),
            body == unsigned_part(s),
            forall|j: int| first <= j < i ==> is_digit_char(#[trigger] chars@[j]) || chars@[j] == '.',
            dots as int == occurrences(chars@.subrange(first as int, i as int), '.'),
            dots <= i - first,
            digits <==> exists|j: int| first <= j < i && is_digit_char(#[trigger] chars@[j]),
        decreases to - i,
    {
        let c = chars[i];
        let ghost pre = chars@.subrange(first as int, i as int);
        assert(chars@.subrange(first as int, i + 1).drop_last() =~= pre);
        if c == '.' {
            dots = dots + 1;
        } else if is_digit(c) {
            digits = true;
        } else {
            assert(!is_float_literal(s)) by {
                assert(body[i - first] == c);
                assert(!(is_digit_char(body[i - first]) || body[i - first] == '.'));
            }
            return false;
        }
        i = i + 1;
    }
    assert(chars@.subrange(first as int, i as int) =~= body);
    assert(digits <==> exists|j: int| 0 <= j < body.len() && is_digit_char(#[trigger] body[j])) by {
        if digits {
            let j = choose|j: int| first <= j < i && is_digit_char(#[trigger] chars@[j]);
            assert(body[j - first] == chars@[j]);
        }
        if exists|j: int| 0 <= j < body.len() && is_digit_char(#[trigger] body[j]) {
            let j = choose|j: int| 0 <= j < body.len() && is_digit_char(#[trigger] body[j]);
            assert(chars@[j + first] == body[j]);
        }
    }
    assert(forall|j: int| 0 <= j < body.len() ==> body[j] == chars@[j + first]);
    dots == 1 && digits
}

} // verus!
