//! The language the parser reads, stated as functions on the source
//! characters: each production takes a cursor and gives what it read and the
//! cursor after it, or the error that stops the parse.
use vstd::prelude::*;
use crate::json::{JsonModel, ValueModel};
use crate::number::{integer_literal_value, is_digit_char, is_float_literal};

verus! {

/// What stopped a parse.
#[derive(Debug, Clone, Copy, PartialEq, Eq, Structural)]
pub enum ErrorKind {
    /// The input ended where more was needed.
    UnexpectedEnd,
    /// The document does not start with `{` or `[`.
    NotContainer,
    /// A key in an object is not followed by `:`.
    MissingColon,
    /// A value starts with a character that no value starts with.
    UnexpectedValue,
    /// A `t` or `f` is not followed by the rest of `true` or `false`.
    BadLiteral,
    /// A number is malformed or does not fit in an `i64`.
    InvalidNumber,
}

/// A fatal parse error, with the 1-based line on which it was found.
#[derive(Debug, Clone, Copy, PartialEq, Eq, Structural)]
pub struct ParseError {
    pub line: usize,
    pub kind: ErrorKind,
}

/// A position in the source and the line counter at that position. The
/// counter grows by one for each newline that whitespace skipping consumes.
pub struct Cursor {
    pub pos: int,
    pub line: int,
}

pub type Step<T> = Result<(T, Cursor), ParseError>;

pub open spec fn is_space(c: char) -> bool {
    c == ' ' || c == '\t' || c == '\r' || c == '\n'
}

/// The line counter after one more newline; it stops at `usize::MAX`.
pub open spec fn next_line(line: int) -> int {
    if line < usize::MAX {
        line + 1
    } else {
        line
    }
}

pub open spec fn forward(c: Cursor, n: int) -> Cursor {
    Cursor { pos: c.pos + n, line: c.line }
}

pub open spec fn at(s: Seq<char>, c: Cursor, ch: char) -> bool {
    0 <= c.pos < s.len() && s[c.pos] == ch
}

pub open spec fn error_at<T>(c: Cursor, kind: ErrorKind) -> Step<T> {
    Err(ParseError { line: c.line as usize, kind })
}

/// The cursor after a run of spaces, tabs, carriage returns and newlines.
pub open spec fn skip_space(s: Seq<char>, c: Cursor) -> Cursor
    decreases s.len() - c.pos,
{
    if 0 <= c.pos < s.len() && is_space(s[c.pos]) {
        let line = if s[c.pos] == '\n' { next_line(c.line) } else { c.line };
        skip_space(s, Cursor { pos: c.pos + 1, line })
    } else {
        c
    }
}

pub proof fn lemma_skip_space_forward(s: Seq<char>, c: Cursor)
    ensures
        skip_space(s, c).pos >= c.pos,
        c.pos <= s.len() ==> skip_space(s, c).pos <= s.len(),
    decreases s.len() - c.pos,
{
    if 0 <= c.pos < s.len() && is_space(s[c.pos]) {
        let line = if s[c.pos] == '\n' { next_line(c.line) } else { c.line };
        lemma_skip_space_forward(s, Cursor { pos: c.pos + 1, line });
    }
}

/// A closing bracket at `c`, and the one comma right after it if there is one.
pub open spec fn close(s: Seq<char>, c: Cursor) -> Cursor {
    if at(s, forward(c, 1), ',') {
        forward(c, 2)
    } else {
        forward(c, 1)
    }
}

/// The first index from `p` on that holds a double quote, or the length.
pub open spec fn quote_index(s: Seq<char>, p: int) -> int
    decreases s.len() - p,
{
    if 0 <= p < s.len() && s[p] != '"' {
        quote_index(s, p + 1)
    } else {
        p
    }
}

/// The first index from `p` on that holds neither a digit nor a dot, or the
/// length.
pub open spec fn number_index(s: Seq<char>, p: int) -> int
    decreases s.len() - p,
{
    if 0 <= p < s.len() && (is_digit_char(s[p]) || s[p] == '.') {
        number_index(s, p + 1)
    } else {
        p
    }
}

/// The text of a string whose opening quote is just before `c`: every
/// character up to the next quote, which is consumed too.
pub open spec fn string_rest(s: Seq<char>, c: Cursor) -> Step<Seq<char>> {
    let q = quote_index(s, c.pos);
    if q < s.len() {
        Ok((s.subrange(c.pos, q), Cursor { pos: q + 1, line: c.line }))
    } else {
        error_at(c, ErrorKind::UnexpectedEnd)
    }
}

/// A number whose first character (a digit or `-`) is at `c`: the longest
/// run of digits and dots that follows it. With a dot it is a float literal,
/// without one an integer that fits in an `i64`.
pub open spec fn number(s: Seq<char>, c: Cursor) -> Step<ValueModel> {
    let e = number_index(s, c.pos + 1);
    let lexeme = s.subrange(c.pos, e);
    let end = Cursor { pos: e, line: c.line };
    if lexeme.contains('.') {
        if is_float_literal(lexeme) {
            Ok((ValueModel::Float(lexeme), end))
        } else {
            error_at(end, ErrorKind::InvalidNumber)
        }
    } else {
        match integer_literal_value(lexeme) {
            Some(v) => Ok((ValueModel::Int(v), end)),
            None => error_at(end, ErrorKind::InvalidNumber),
        }
    }
}

/// The rest `word` of a keyword whose first letter is just before `c`.
pub open spec fn keyword_rest(s: Seq<char>, c: Cursor, word: Seq<char>, v: ValueModel) -> Step<
    ValueModel,
> {
    if c.pos + word.len() > s.len() {
        error_at(c, ErrorKind::UnexpectedEnd)
    } else if s.subrange(c.pos, c.pos + word.len()) == word {
        Ok((v, forward(c, word.len() as int)))
    } else {
        error_at(c, ErrorKind::BadLiteral)
    }
}

/// `m` with `k` bound to `v`: an entry with key `k` keeps its place and
/// takes the new value, otherwise the entry is added at the end.
pub open spec fn insert_member(m: Seq<(Seq<char>, ValueModel)>, k: Seq<char>, v: ValueModel) -> Seq<
    (Seq<char>, ValueModel),
> {
    if exists|i: int| 0 <= i < m.len() && m[i].0 == k {
        let i = choose|i: int|
            0 <= i < m.len() && m[i].0 == k && forall|j: int| 0 <= j < i ==> m[j].0 != k;
        m.update(i, (k, v))
    } else {
        m.push((k, v))
    }
}

/// A value whose first character is at `c`.
pub open spec fn value(s: Seq<char>, c: Cursor) -> Step<ValueModel>
    decreases s.len() - c.pos, 0int,
{
    if !(0 <= c.pos < s.len()) {
        error_at(c, ErrorKind::UnexpectedEnd)
    } else {
        let ch = s[c.pos];
        let n = forward(c, 1);
        proof {
            lemma_skip_space_forward(s, n);
        }
        if ch == '"' {
            match string_rest(s, n) {
                Ok((t, e)) => Ok((ValueModel::Str(t), e)),
                Err(x) => Err(x),
            }
        } else if ch == '{' {
            match members(s, skip_space(s, n), Seq::empty()) {
                Ok((m, e)) => Ok((ValueModel::Object(m), e)),
                Err(x) => Err(x),
            }
        } else if ch == '[' {
            match items(s, skip_space(s, n), Seq::empty()) {
                Ok((m, e)) => Ok((ValueModel::Array(m), e)),
                Err(x) => Err(x),
            }
        } else if ch == 't' {
            keyword_rest(s, n, seq!['r', 'u', 'e'], ValueModel::Bool(true))
        } else if ch == 'f' {
            keyword_rest(s, n, seq!['a', 'l', 's', 'e'], ValueModel::Bool(false))
        } else if is_digit_char(ch) || ch == '-' {
            number(s, c)
        } else {
            error_at(n, ErrorKind::UnexpectedValue)
        }
    }
}

/// The elements of an array from `c` (just past whitespace) to its closing
/// bracket, after the elements `acc` already read. A comma may follow each
/// element, the last one too.
pub open spec fn items(s: Seq<char>, c: Cursor, acc: Seq<ValueModel>) -> Step<Seq<ValueModel>>
    decreases s.len() - c.pos, 1int,
{
    if at(s, c, ']') {
        Ok((acc, close(s, c)))
    } else {
        match value(s, c) {
            Err(x) => Err(x),
            Ok((v, e)) => {
                let e1 = skip_space(s, e);
                let e2 = if at(s, e1, ',') { forward(e1, 1) } else { e1 };
                let e3 = skip_space(s, e2);
                // A value consumes at least its first character, so this
                // test always holds; it lets the recursion be seen to end.
                if 0 <= c.pos < e3.pos <= s.len() {
                    items(s, e3, acc.push(v))
                } else {
                    error_at(e3, ErrorKind::UnexpectedEnd)
                }
            },
        }
    }
}

/// The entries of an object from `c` (just past whitespace) to its closing
/// brace, after the entries `acc` already read. A character that does not
/// start a key (a comma, say) is passed over.
pub open spec fn members(s: Seq<char>, c: Cursor, acc: Seq<(Seq<char>, ValueModel)>) -> Step<
    Seq<(Seq<char>, ValueModel)>,
>
    decreases s.len() - c.pos, 1int,
{
    if at(s, c, '}') {
        Ok((acc, close(s, c)))
    } else if !(0 <= c.pos < s.len()) {
        error_at(c, ErrorKind::UnexpectedEnd)
    } else if s[c.pos] == '"' {
        match member(s, forward(c, 1)) {
            Err(x) => Err(x),
            Ok((kv, e)) => {
                let e1 = skip_space(s, e);
                // As in `items`: a member consumes at least its key.
                if c.pos < e1.pos <= s.len() {
                    members(s, e1, insert_member(acc, kv.0, kv.1))
                } else {
                    error_at(e1, ErrorKind::UnexpectedEnd)
                }
            },
        }
    } else {
        let e1 = skip_space(s, forward(c, 1));
        proof {
            lemma_skip_space_forward(s, forward(c, 1));
        }
        members(s, e1, acc)
    }
}

/// A key, a colon and a value, from just past the key's opening quote.
pub open spec fn member(s: Seq<char>, c: Cursor) -> Step<(Seq<char>, ValueModel)>
    decreases s.len() - c.pos, 1int,
{
    match string_rest(s, c) {
        Err(x) => Err(x),
        Ok((k, e)) => {
            let e1 = skip_space(s, e);
            if at(s, e1, ':') {
                let e2 = skip_space(s, forward(e1, 1));
                proof {
                    lemma_quote_index(s, c.pos);
                    lemma_skip_space_forward(s, e);
                    lemma_skip_space_forward(s, forward(e1, 1));
                }
                match value(s, e2) {
                    Ok((v, e3)) => Ok(((k, v), e3)),
                    Err(x) => Err(x),
                }
            } else {
                error_at(e1, ErrorKind::MissingColon)
            }
        },
    }
}

pub proof fn lemma_quote_index(s: Seq<char>, p: int)
    ensures
        quote_index(s, p) >= p,
        p <= s.len() ==> quote_index(s, p) <= s.len(),
        0 <= p && quote_index(s, p) < s.len() ==> s[quote_index(s, p)] == '"',
        forall|j: int| p <= j < quote_index(s, p) ==> s[j] != '"',
    decreases s.len() - p,
{
    if 0 <= p < s.len() && s[p] != '"' {
        lemma_quote_index(s, p + 1);
    }
}

pub proof fn lemma_number_index(s: Seq<char>, p: int)
    ensures
        number_index(s, p) >= p,
        p <= s.len() ==> number_index(s, p) <= s.len(),
    decreases s.len() - p,
{
    if 0 <= p < s.len() && (is_digit_char(s[p]) || s[p] == '.') {
        lemma_number_index(s, p + 1);
    }
}

/// A document: whitespace, then an object or an array. What follows the
/// closing bracket is not read.
pub open spec fn document(s: Seq<char>, c: Cursor) -> Step<JsonModel> {
    let c1 = skip_space(s, c);
    if !(0 <= c1.pos < s.len()) {
        error_at(c1, ErrorKind::UnexpectedEnd)
    } else if s[c1.pos] == '{' {
        match members(s, skip_space(s, forward(c1, 1)), Seq::empty()) {
            Ok((m, e)) => Ok((JsonModel::Object(m), e)),
            Err(x) => Err(x),
        }
    } else if s[c1.pos] == '[' {
        match items(s, skip_space(s, forward(c1, 1)), Seq::empty()) {
            Ok((m, e)) => Ok((JsonModel::Array(m), e)),
            Err(x) => Err(x),
        }
    } else {
        error_at(forward(c1, 1), ErrorKind::NotContainer)
    }
}

/// What a whole source text parses to.
pub open spec fn parse_json(s: Seq<char>) -> Result<JsonModel, ParseError> {
    match document(s, Cursor { pos: 0, line: 1 }) {
        Ok((m, _)) => Ok(m),
        Err(x) => Err(x),
    }
}

} // verus!
