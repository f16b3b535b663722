use vstd::prelude::*;
use crate::grammar::{
    at, close, document, forward, insert_member, items, keyword_rest, lemma_number_index,
    lemma_quote_index, lemma_skip_space_forward, member, members, number_index, quote_index,
    skip_space, string_rest, value, Cursor, ErrorKind, ParseError,
};
use crate::json::{
    lemma_array_model, lemma_object_model, member_models, models, Json, JsonValue, ValueModel,
};
use crate::number::{float_literal_ok, integer_value, is_digit, is_digit_char};
use crate::text::{chars_of, string_from};

verus! {

/// A span of the source: `length` characters from `start`.
struct Token {
    start: usize,
    length: usize,
}

/// A cursor over a source text, decoded once into characters.
pub struct Parser {
    source: Vec<char>,
    start: usize,
    current: usize,
    line: usize,
}

impl Parser {
    /// The source text.
    pub closed spec fn text(&self) -> Seq<char> {
        self.source@
    }

    /// The position of the parser and its line counter.
    pub closed spec fn cursor(&self) -> Cursor {
        Cursor { pos: self.current as int, line: self.line as int }
    }

    /// Where the lexeme being scanned starts.
    pub closed spec fn token_start(&self) -> int {
        self.start as int
    }

    pub closed spec fn wf(&self) -> bool {
        self.current <= self.source.len()
    }

    pub fn new(source: String) -> (p: Parser)
        ensures
            p.wf(),
            p.text() == source@,
            p.cursor() == (Cursor { pos: 0, line: 1 }),
            p.token_start() == 0,
    {
        Parser { source: chars_of(&source), start: 0, current: 0, line: 1 }
    }

    /// Parses the document that starts at the cursor.
    pub fn parse(&mut self) -> (r: Result<Json, ParseError>)
        requires
            old(self).wf(),
        ensures
            final(self).wf(),
            final(self).text() == old(self).text(),
            match document(old(self).text(), old(self).cursor()) {
                Ok((m, e)) => r matches Ok(j) && j.model() == m && final(self).cursor() == e,
                Err(x) => r == Err::<Json, ParseError>(x),
            },
    {
        self.skip_whitespace();
        let c = match self.advance() {
            Ok(c) => c,
            Err(e) => return Err(e),
        };
        if c == '{' {
            match self.parse_object() {
                Ok(m) => Ok(Json::Object(m)),
                Err(e) => Err(e),
            }
        } else if c == '[' {
            match self.parse_array() {
                Ok(a) => Ok(Json::Array(a)),
                Err(e) => Err(e),
            }
        } else {
            Err(self.error(ErrorKind::NotContainer))
        }
    }

    fn error(&self, kind: ErrorKind) -> (r: ParseError)
        ensures
            r == (ParseError { line: self.line, kind }),
    {
        ParseError { line: self.line, kind }
    }

    fn parse_array(&mut self) -> (r: Result<Vec<JsonValue>, ParseError>)
        requires
            old(self).wf(),
        ensures
            final(self).wf(),
            final(self).source == old(self).source,
            match items(old(self).source@, skip_space(old(self).source@, old(self).cursor()), seq![]) {
                Ok((m, e)) => r matches Ok(a) && models(a@) == m && final(self).cursor() == e,
                Err(x) => r == Err::<Vec<JsonValue>, ParseError>(x),
            },
            r is Ok ==> final(self).current >= old(self).current,
        decreases old(self).source.len() - old(self).current, 1int,
    {
        let ghost s = self.source@;
        let mut array: Vec<JsonValue> = Vec::new();
        self.skip_whitespace();
        proof {
            lemma_skip_space_forward(s, old(self).cursor());
        }
        let ghost c1 = self.cursor();
        assert(models(array@) =~= seq![]);
        loop
            invariant_except_break
                items(s, self.cursor(), models(array@)) == items(s, c1, seq![]),
            invariant
                self.wf(),
                self.source == old(self).source,
                s == self.source@,
                s == old(self).source@,
                c1 == skip_space(s, old(self).cursor()),
                self.current >= old(self).current,
            ensures
                self.wf(),
                self.source == old(self).source,
                self.current >= old(self).current,
                items(s, c1, seq![]) == Ok::<(Seq<ValueModel>, Cursor), ParseError>(
                    (models(array@), self.cursor()),
                ),
            decreases self.source.len() - self.current,
        {
            if self.match_end_of_array() {
                break;
            }
            match self.parse_value() {
                Ok(v) => {
                    let ghost e = self.cursor();
                    self.skip_whitespace();
                    self.match_char(',');
                    let ghost e2 = self.cursor();
                    self.skip_whitespace();
                    proof {
                        lemma_skip_space_forward(s, e);
                        lemma_skip_space_forward(s, e2);
                        assert(models(array@.push(v)) =~= models(array@).push(v.model()));
                    }
                    array.push(v);
                },
                Err(e) => {
                    return Err(e);
                },
            }
        }
        Ok(array)
    }

    fn parse_object(&mut self) -> (r: Result<Vec<(String, JsonValue)>, ParseError>)
        requires
            old(self).wf(),
        ensures
            final(self).wf(),
            final(self).source == old(self).source,
            match members(old(self).source@, skip_space(old(self).source@, old(self).cursor()), seq![]) {
                Ok((m, e)) => r matches Ok(a) && member_models(a@) == m && final(self).cursor() == e,
                Err(x) => r == Err::<Vec<(String, JsonValue)>, ParseError>(x),
            },
            r is Ok ==> final(self).current >= old(self).current,
        decreases old(self).source.len() - old(self).current, 1int,
    {
        let ghost s = self.source@;
        let mut properties: Vec<(String, JsonValue)> = Vec::new();
        self.skip_whitespace();
        proof {
            lemma_skip_space_forward(s, old(self).cursor());
        }
        let ghost c1 = self.cursor();
        assert(member_models(properties@) =~= seq![]);
        loop
            invariant_except_break
                members(s, self.cursor(), member_models(properties@)) == members(s, c1, seq![]),
            invariant
                self.wf(),
                self.source == old(self).source,
                s == self.source@,
                s == old(self).source@,
                c1 == skip_space(s, old(self).cursor()),
                self.current >= old(self).current,
            ensures
                self.wf(),
                self.source == old(self).source,
                self.current >= old(self).current,
                members(s, c1, seq![]) == Ok::<(Seq<(Seq<char>, ValueModel)>, Cursor), ParseError>(
                    (member_models(properties@), self.cursor()),
                ),
            decreases self.source.len() - self.current,
        {
            if self.match_end_of_object() {
                break;
            }
            let ch = match self.advance() {
                Ok(ch) => ch,
                Err(e) => return Err(e),
            };
            if ch == '"' {
                match self.parse_key(&mut properties) {
                    Ok(()) => {},
                    Err(e) => return Err(e),
                }
            }
            let ghost e = self.cursor();
            self.skip_whitespace();
            proof {
                lemma_skip_space_forward(s, e);
            }
        }
        Ok(properties)
    }

    /// Reads a key, its colon and its value, and binds the key in
    /// `properties`.
    fn parse_key(&mut self, properties: &mut Vec<(String, JsonValue)>) -> (r: Result<(), ParseError>)
        requires
            old(self).wf(),
        ensures
            final(self).wf(),
            final(self).source == old(self).source,
            match member(old(self).source@, old(self).cursor()) {
                Ok((kv, e)) => r is Ok && final(self).cursor() == e && member_models(final(properties)@)
                    == insert_member(member_models(old(properties)@), kv.0, kv.1),
                Err(x) => r == Err::<(), ParseError>(x),
            },
            r is Ok ==> final(self).current > old(self).current,
            r is Err ==> final(properties)@ == old(properties)@,
        decreases old(self).source.len() - old(self).current, 1int,
    {
        let ghost s = self.source@;
        let key_token = match self.parse_string() {
            Ok(t) => t,
            Err(e) => return Err(e),
        };
        let key_lexeme = self.lexeme_from_token(key_token);
        let ghost e = self.cursor();
        self.skip_whitespace();
        if !self.match_char(':') {
            return Err(self.error(ErrorKind::MissingColon));
        }
        let ghost e1 = self.cursor();
        self.skip_whitespace();
        proof {
            lemma_quote_index(s, old(self).current as int);
            lemma_skip_space_forward(s, e);
            lemma_skip_space_forward(s, e1);
        }
        match self.parse_value() {
            Ok(value) => {
                insert_property(properties, key_lexeme, value);
                Ok(())
            },
            Err(e) => Err(e),
        }
    }

    fn parse_value(&mut self) -> (r: Result<JsonValue, ParseError>)
        requires
            old(self).wf(),
        ensures
            final(self).wf(),
            final(self).source == old(self).source,
            match value(old(self).source@, old(self).cursor()) {
                Ok((m, e)) => r matches Ok(v) && v.model() == m && final(self).cursor() == e,
                Err(x) => r == Err::<JsonValue, ParseError>(x),
            },
            r is Ok ==> final(self).current > old(self).current,
            ({
                let i = old(self).current as int;
                let ch = old(self).source@[i];
                i < old(self).source.len() && !(ch == '"' || ch == '{' || ch == '[' || ch == 't'
                    || ch == 'f' || ch == '-' || is_digit_char(ch)) ==> final(self).current == i + 1
            }),
        decreases old(self).source.len() - old(self).current, 0int,
    {
        let ghost s = self.source@;
        let c = match self.advance() {
            Ok(c) => c,
            Err(e) => return Err(e),
        };
        proof {
            lemma_skip_space_forward(s, self.cursor());
        }
        if c == '"' {
            let value_token = match self.parse_string() {
                Ok(t) => t,
                Err(e) => return Err(e),
            };
            proof {
                lemma_quote_index(s, old(self).current + 1);
            }
            Ok(JsonValue::String(self.lexeme_from_token(value_token)))
        } else if c == '{' {
            match self.parse_object() {
                Ok(m) => {
                    proof {
                        lemma_object_model(m);
                    }
                    Ok(JsonValue::Object(m))
                },
                Err(e) => Err(e),
            }
        } else if c == '[' {
            match self.parse_array() {
                Ok(a) => {
                    proof {
                        lemma_array_model(a);
                    }
                    Ok(JsonValue::Array(a))
                },
                Err(e) => Err(e),
            }
        } else if c == 't' {
            match self.parse_true() {
                Ok(()) => Ok(JsonValue::Boolean(true)),
                Err(e) => Err(e),
            }
        } else if c == 'f' {
            match self.parse_false() {
                Ok(()) => Ok(JsonValue::Boolean(false)),
                Err(e) => Err(e),
            }
        } else if !(is_digit(c) || c == '-') {
            Err(self.error(ErrorKind::UnexpectedValue))
        } else {
            let (value_token, is_float) = self.parse_number();
            let from = value_token.start;
            let to = value_token.start + value_token.length;
            proof {
                lemma_number_index(s, from + 1);
                let lexeme = s.subrange(from as int, to as int);
                let tail = s.subrange(from + 1, to as int);
                assert(lexeme[0] == c);
                if lexeme.contains('.') {
                    let j = choose|j: int| 0 <= j < lexeme.len() && lexeme[j] == '.';
                    assert(tail[j - 1] == '.');
                }
                if tail.contains('.') {
                    let j = choose|j: int| 0 <= j < tail.len() && tail[j] == '.';
                    assert(lexeme[j + 1] == '.');
                }
            }
            if is_float {
                if float_literal_ok(&self.source, from, to) {
                    Ok(JsonValue::Float(self.lexeme_from_token(value_token)))
                } else {
                    Err(self.error(ErrorKind::InvalidNumber))
                }
            } else {
                match integer_value(&self.source, from, to) {
                    Some(v) => Ok(JsonValue::Integer(v)),
                    None => Err(self.error(ErrorKind::InvalidNumber)),
                }
            }
        }
    }

    /// Reads the characters of a string whose opening quote was just
    /// consumed, up to the closing quote, which is consumed too.
    fn parse_string(&mut self) -> (r: Result<Token, ParseError>)
        requires
            old(self).wf(),
        ensures
            final(self).wf(),
            final(self).source == old(self).source,
            match string_rest(old(self).source@, old(self).cursor()) {
                Ok((t, e)) => r matches Ok(tok) && tok.start + tok.length <= old(self).source.len()
                    && old(self).source@.subrange(tok.start as int, tok.start + tok.length) == t
                    && final(self).cursor() == e,
                Err(x) => r == Err::<Token, ParseError>(x),
            },
            r is Ok ==> r->Ok_0.start == old(self).current,
    {
        self.start = self.current;
        while !self.is_at_end() && self.peek() != '"'
            invariant
                self.wf(),
                self.source == old(self).source,
                self.line == old(self).line,
                self.start == old(self).current <= self.current,
                quote_index(self.source@, self.current as int) == quote_index(
                    self.source@,
                    old(self).current as int,
                ),
            decreases self.source.len() - self.current,
        {
            self.current = self.current + 1;
        }
        let token = self.make_token();
        match self.advance() {
            Ok(_) => Ok(token),
            Err(e) => Err(e),
        }
    }

    /// Reads the rest of a number whose first character was just consumed:
    /// the longest run of digits and dots. Tells whether a dot was read.
    fn parse_number(&mut self) -> (r: (Token, bool))
        requires
            old(self).wf(),
            old(self).current >= 1,
        ensures
            final(self).wf(),
            final(self).source == old(self).source,
            final(self).line == old(self).line,
            r.0.start == old(self).current - 1,
            r.0.start + r.0.length == final(self).current,
            final(self).current == number_index(old(self).source@, old(self).current as int),
            r.1 == old(self).source@.subrange(old(self).current as int, final(self).current as int).contains('.'),
    {
        self.start = self.current - 1;
        let mut is_float = false;
        while !self.is_at_end() && (is_digit(self.peek()) || self.peek() == '.')
            invariant
                self.wf(),
                self.source == old(self).source,
                self.line == old(self).line,
                self.start == old(self).current - 1,
                old(self).current <= self.current,
                number_index(self.source@, self.current as int) == number_index(
                    self.source@,
                    old(self).current as int,
                ),
                is_float == self.source@.subrange(old(self).current as int, self.current as int).contains('.'),
            decreases self.source.len() - self.current,
        {
            let ghost before = self.source@.subrange(old(self).current as int, self.current as int);
            let c = self.get_char_at_index(self.current);
            self.current = self.current + 1;
            let ghost after = self.source@.subrange(old(self).current as int, self.current as int);
            proof {
                assert(after =~= before.push(c));
                if after.contains('.') && c != '.' {
                    let j = choose|j: int| 0 <= j < after.len() && after[j] == '.';
                    assert(before[j] == '.');
                }
            }
            if c == '.' {
                assert(after[after.len() - 1] == '.');
                is_float = true;
            }
        }
        (self.make_token(), is_float)
    }

    /// Reads the `rue` of `true`.
    fn parse_true(&mut self) -> (r: Result<(), ParseError>)
        requires
            old(self).wf(),
        ensures
            final(self).wf(),
            final(self).source == old(self).source,
            match keyword_rest(old(self).source@, old(self).cursor(), seq!['r', 'u', 'e'], ValueModel::Bool(true)) {
                Ok((_, e)) => r is Ok && final(self).cursor() == e,
                Err(x) => r == Err::<(), ParseError>(x),
            },
    {
        let ghost s = self.source@;
        let ghost c0 = self.cursor();
        let r = match self.advance() { Ok(c) => c, Err(e) => return Err(e) };
        let u = match self.advance() { Ok(c) => c, Err(e) => return Err(e) };
        let e = match self.advance() { Ok(c) => c, Err(e) => return Err(e) };
        let ghost word: Seq<char> = seq!['r', 'u', 'e'];
        assert(s.subrange(c0.pos, c0.pos + 3) == word <==> (r == 'r' && u == 'u' && e == 'e')) by {
            if r == 'r' && u == 'u' && e == 'e' {
                assert(s.subrange(c0.pos, c0.pos + 3) =~= word);
            }
        }
        if !(r == 'r' && u == 'u' && e == 'e') {
            return Err(self.error(ErrorKind::BadLiteral));
        }
        Ok(())
    }

    /// Reads the `alse` of `false`.
    fn parse_false(&mut self) -> (r: Result<(), ParseError>)
        requires
            old(self).wf(),
        ensures
            final(self).wf(),
            final(self).source == old(self).source,
            match keyword_rest(old(self).source@, old(self).cursor(), seq!['a', 'l', 's', 'e'], ValueModel::Bool(false)) {
                Ok((_, e)) => r is Ok && final(self).cursor() == e,
                Err(x) => r == Err::<(), ParseError>(x),
            },
    {
        let ghost s = self.source@;
        let ghost c0 = self.cursor();
        let a = match self.advance() { Ok(c) => c, Err(e) => return Err(e) };
        let l = match self.advance() { Ok(c) => c, Err(e) => return Err(e) };
        let x = match self.advance() { Ok(c) => c, Err(e) => return Err(e) };
        let e = match self.advance() { Ok(c) => c, Err(e) => return Err(e) };
        let ghost word: Seq<char> = seq!['a', 'l', 's', 'e'];
        assert(s.subrange(c0.pos, c0.pos + 4) == word <==> (a == 'a' && l == 'l' && x == 's' && e == 'e')) by {
            if a == 'a' && l == 'l' && x == 's' && e == 'e' {
                assert(s.subrange(c0.pos, c0.pos + 4) =~= word);
            }
        }
        if !(a == 'a' && l == 'l' && x == 's' && e == 'e') {
            return Err(self.error(ErrorKind::BadLiteral));
        }
        Ok(())
    }

    fn make_token(&self) -> (r: Token)
        requires
            self.start <= self.current,
        ensures
            r.start == self.start,
            r.start + r.length == self.current,
    {
        Token { start: self.start, length: self.current - self.start }
    }

    fn lexeme_from_token(&self, token: Token) -> (r: String)
        requires
            token.start + token.length <= self.source.len(),
        ensures
            r@ == self.source@.subrange(token.start as int, token.start + token.length),
    {
        string_from(&self.source, token.start, token.start + token.length)
    }

    fn is_at_end(&self) -> (r: bool)
        requires
            self.wf(),
        ensures
            r == (self.current == self.source.len()),
    {
        self.current == self.source.len()
    }

    fn get_char_at_index(&self, index: usize) -> (r: char)
        requires
            index < self.source.len(),
        ensures
            r == self.source@[index as int],
    {
        self.source[index]
    }

    /// Consumes and returns the character at the cursor; at the end of the
    /// input, an error and no move.
    fn advance(&mut self) -> (r: Result<char, ParseError>)
        requires
            old(self).wf(),
        ensures
            final(self).wf(),
            final(self).source == old(self).source,
            final(self).line == old(self).line,
            final(self).start == old(self).start,
            old(self).current < old(self).source.len() ==> r == Ok::<char, ParseError>(
                old(self).source@[old(self).current as int],
            ) && final(self).current == old(self).current + 1,
            old(self).current == old(self).source.len() ==> r == Err::<char, ParseError>(
                ParseError { line: old(self).line, kind: ErrorKind::UnexpectedEnd },
            ) && final(self).current == old(self).current,
    {
        if self.is_at_end() {
            return Err(self.error(ErrorKind::UnexpectedEnd));
        }
        self.current = self.current + 1;
        Ok(self.get_char_at_index(self.current - 1))
    }

    /// The character at the cursor, or `'\0'` at the end of the input.
    fn peek(&self) -> (r: char)
        requires
            self.wf(),
        ensures
            r == if self.current < self.source.len() {
                self.source@[self.current as int]
            } else {
                '\0'
            },
    {
        if self.is_at_end() {
            return '\0';
        }
        self.get_char_at_index(self.current)
    }

    /// Consumes the character at the cursor if it is `expected`.
    fn match_char(&mut self, expected: char) -> (r: bool)
        requires
            old(self).wf(),
        ensures
            final(self).wf(),
            final(self).source == old(self).source,
            final(self).start == old(self).start,
            final(self).line == old(self).line,
            r == at(old(self).source@, old(self).cursor(), expected),
            final(self).cursor() == if r {
                forward(old(self).cursor(), 1)
            } else {
                old(self).cursor()
            },
    {
        if self.is_at_end() {
            return false;
        }
        if self.peek() != expected {
            return false;
        }
        self.current = self.current + 1;
        true
    }

    /// Consumes a closing bracket, and a comma right after it.
    fn match_end_of_array(&mut self) -> (r: bool)
        requires
            old(self).wf(),
        ensures
            final(self).wf(),
            final(self).source == old(self).source,
            final(self).start == old(self).start,
            final(self).line == old(self).line,
            r == at(old(self).source@, old(self).cursor(), ']'),
            final(self).cursor() == if r {
                close(old(self).source@, old(self).cursor())
            } else {
                old(self).cursor()
            },
    {
        if self.is_at_end() {
            return false;
        }
        if self.peek() != ']' {
            return false;
        }
        self.current = self.current + 1;
        if self.peek() == ',' {
            self.current = self.current + 1;
        }
        true
    }

    /// Consumes a closing brace, and a comma right after it.
    fn match_end_of_object(&mut self) -> (r: bool)
        requires
            old(self).wf(),
        ensures
            final(self).wf(),
            final(self).source == old(self).source,
            final(self).start == old(self).start,
            final(self).line == old(self).line,
            r == at(old(self).source@, old(self).cursor(), '}'),
            final(self).cursor() == if r {
                close(old(self).source@, old(self).cursor())
            } else {
                old(self).cursor()
            },
    {
        if self.is_at_end() {
            return false;
        }
        if self.peek() != '}' {
            return false;
        }
        self.current = self.current + 1;
        if self.peek() == ',' {
            self.current = self.current + 1;
        }
        true
    }

    /// Consumes spaces, tabs, carriage returns and newlines, counting the
    /// newlines.
    fn skip_whitespace(&mut self)
        requires
            old(self).wf(),
        ensures
            final(self).wf(),
            final(self).source == old(self).source,
            final(self).start == old(self).start,
            final(self).cursor() == skip_space(old(self).source@, old(self).cursor()),
    {
        loop
            invariant
                self.wf(),
                self.source == old(self).source,
                self.start == old(self).start,
                skip_space(self.source@, self.cursor()) == skip_space(
                    self.source@,
                    old(self).cursor(),
                ),
            ensures
                self.wf(),
                self.source == old(self).source,
                self.start == old(self).start,
                self.cursor() == skip_space(old(self).source@, old(self).cursor()),
            decreases self.source.len() - self.current,
        {
            if self.is_at_end() {
                assert(skip_space(self.source@, self.cursor()) == self.cursor());
                break;
            }
            let c = self.peek();
            if c == ' ' || c == '\r' || c == '\t' {
                self.current = self.current + 1;
            } else if c == '\n' {
                if self.line < usize::MAX {
                    self.line = self.line + 1;
                }
                self.current = self.current + 1;
            } else {
                assert(skip_space(self.source@, self.cursor()) == self.cursor());
                break;
            }
        }
    }
}

/// Binds `key` to `value` in `properties`: an entry with that key takes the
/// new value in its place; otherwise the entry is added at the end.
fn insert_property(properties: &mut Vec<(String, JsonValue)>, key: String, value: JsonValue)
    ensures
        member_models(final(properties)@) == insert_member(
            member_models(old(properties)@),
            key@,
            value.model(),
        ),
{
    let ghost m = member_models(properties@);
    let mut i: usize = 0;
    while i < properties.len()
        invariant
            i <= properties.len(),
            properties@ == old(properties)@,
            m == member_models(properties@),
            forall|j: int| 0 <= j < i ==> m[j].0 != key@,
        decreases properties.len() - i,
    {
        if properties[i].0 == key {
            let ghost k = key@;
            proof {
                let c = choose|c: int|
                    0 <= c < m.len() && m[c].0 == k && forall|j: int| 0 <= j < c ==> m[j].0 != k;
                assert(m[i as int].0 == k);
                if c < i {
                    assert(m[c].0 != k);
                }
                if c > i {
                    assert(m[i as int].0 != k);
                }
            }
            properties.set(i, (key, value));
            assert(member_models(properties@) =~= m.update(i as int, (k, value.model())));
            return;
        }
        i = i + 1;
    }
    let ghost k = key@;
    let ghost v = value.model();
    properties.push((key, value));
    assert(member_models(properties@) =~= m.push((k, v)));
}

} // verus!
