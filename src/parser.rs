//! The parser: a cursor over the input characters, and one routine per
//! grammar rule.
use vstd::prelude::*;
use crate::error::{push_char, ErrorKind, ParseError, ValueKind};
use crate::grammar::{
    col_at, ident_end, kind_of, is_ascii_char, is_number_char, is_ws, line_at, number_end, parse_array_at,
    parse_elements, parse_keyword_at, parse_members, parse_number_at, parse_object_at,
    parse_string_at, parse_value, quote_end, skip_ws, Outcome, MAX_DEPTH,
};
use crate::lexical::float_literal_in;
use crate::value::{jsons_of, JsonObject, JsonValue};

verus! {

/// Line and column never exceed the index, so counting them cannot overflow.
proof fn lemma_line_col_bounds(s: Seq<char>, n: int)
    ensures
        line_at(s, n) <= if n < 0 { 0 } else { n },
        col_at(s, n) <= if n < 0 { 0 } else { n },
    decreases n,
{
    if n > 0 {
        lemma_line_col_bounds(s, n - 1);
    }
}

/// Whether `r` is the executable form of the grammar outcome `o` on the
/// text `s`, where `end` is the cursor after the call.
pub open spec fn agrees(s: Seq<char>, r: Result<JsonValue, ParseError>, end: int, o: Outcome) -> bool {
    match r {
        Ok(v) => o == Outcome::Ok((v@, end)),
        Err(e) => {
            &&& o == Outcome::Err((e.kind@, e.offset as int))
            &&& e.line == line_at(s, e.offset as int)
            &&& e.col == col_at(s, e.offset as int)
        },
    }
}

fn ws_char(c: char) -> (r: bool)
    ensures
        r == is_ws(c),
{
    c == ' ' || c == '\t' || c == '\n' || c == '\r'
}

fn number_char(c: char) -> (r: bool)
    ensures
        r == is_number_char(c),
{
    c == '-' || ('0' <= c && c <= '9') || c == '.' || c == 'e'
}

fn ascii_char(c: char) -> (r: bool)
    ensures
        r == is_ascii_char(c),
{
    (c as u32) < 128
}

fn value_kind(v: &JsonValue) -> (r: ValueKind)
    ensures
        r == kind_of(v@),
{
    match v {
        JsonValue::Number(_) => ValueKind::Number,
        JsonValue::Bool(_) => ValueKind::Bool,
        JsonValue::String(_) => ValueKind::String,
        JsonValue::Array(_) => ValueKind::Array,
        JsonValue::Object(_) => ValueKind::Object,
        JsonValue::Null => ValueKind::Null,
    }
}

/// A parser over a text, with a cursor that tracks line and column.
pub struct JsonParser {
    chars: Vec<char>,
    pos: usize,
    line: usize,
    col: usize,
}

impl JsonParser {
    /// The characters of the input.
    pub closed spec fn text(&self) -> Seq<char> {
        self.chars@
    }

    /// The index of the next unconsumed character.
    pub closed spec fn pos(&self) -> int {
        self.pos as int
    }

    pub closed spec fn wf(&self) -> bool {
        &&& self.pos <= self.chars.len()
        &&& self.line == line_at(self.chars@, self.pos as int)
        &&& self.col == col_at(self.chars@, self.pos as int)
    }

    /// A parser positioned at the start of `input`.
    pub fn new(input: &str) -> (r: Self)
        ensures
            r.wf(),
            r.text() == input@,
            r.pos() == 0,
    {
        let mut chars: Vec<char> = Vec::new();
        for c in it: input.chars()
            invariant
                chars@ == it.seq().take(it.index() as int),
        {
            chars.push(c);
        }
        JsonParser { chars, pos: 0, line: 0, col: 0 }
    }

    /// Consumes one character, keeping line and column up to date.
    fn bump(&mut self)
        requires
            old(self).wf(),
            old(self).pos() < old(self).text().len(),
        ensures
            final(self).wf(),
            final(self).text() == old(self).text(),
            final(self).pos() == old(self).pos() + 1,
    {
        let c = self.chars[self.pos];
        proof {
            lemma_line_col_bounds(self.chars@, self.pos + 1);
        }
        if c == '\n' {
            self.line = self.line + 1;
            self.col = 0;
        } else {
            self.col = self.col + 1;
        }
        self.pos = self.pos + 1;
    }

    /// Skips whitespace and returns the next significant character without
    /// consuming it, or `None` at the end of the input. Skipped newlines
    /// advance the line counter.
    pub fn peek(&mut self) -> (r: Option<char>)
        requires
            old(self).wf(),
        ensures
            final(self).wf(),
            final(self).text() == old(self).text(),
            final(self).pos() == skip_ws(old(self).text(), old(self).pos()),
            old(self).pos() <= final(self).pos() <= final(self).text().len(),
            final(self).pos() < final(self).text().len() ==> r == Some(
                final(self).text()[final(self).pos()],
            ),
            final(self).pos() >= final(self).text().len() ==> r is None,
    {
        while self.pos < self.chars.len() && ws_char(self.chars[self.pos])
            invariant
                self.wf(),
                self.chars@ == old(self).chars@,
                old(self).pos <= self.pos <= self.chars.len(),
                skip_ws(self.chars@, self.pos as int) == skip_ws(self.chars@, old(self).pos as int),
            decreases self.chars.len() - self.pos,
        {
            self.bump();
        }
        if self.pos < self.chars.len() {
            Some(self.chars[self.pos])
        } else {
            None
        }
    }

    /// Skips whitespace and consumes the next significant character, or
    /// returns `None` at the end of the input.
    pub fn next(&mut self) -> (r: Option<char>)
        requires
            old(self).wf(),
        ensures
            final(self).wf(),
            final(self).text() == old(self).text(),
            ({
                let k = skip_ws(old(self).text(), old(self).pos());
                if k < old(self).text().len() {
                    r == Some(old(self).text()[k]) && final(self).pos() == k + 1
                } else {
                    r is None && final(self).pos() == k
                }
            }),
    {
        let c = self.peek();
        if c.is_some() {
            self.bump();
        }
        c
    }

    /// An error of the given kind at the cursor.
    pub fn make_error(&self, kind: ErrorKind) -> (r: ParseError)
        requires
            self.wf(),
        ensures
            r.kind == kind,
            r.offset == self.pos(),
            r.line == line_at(self.text(), self.pos()),
            r.col == col_at(self.text(), self.pos()),
    {
        ParseError { kind, offset: self.pos, line: self.line, col: self.col }
    }

    /// Parses a string: after whitespace, a `"`, then every character up to
    /// the next `"`, taken literally.
    pub fn parse_string(&mut self) -> (r: Result<JsonValue, ParseError>)
        requires
            old(self).wf(),
        ensures
            final(self).wf(),
            final(self).text() == old(self).text(),
            final(self).pos() >= old(self).pos(),
            agrees(old(self).text(), r, final(self).pos(), parse_string_at(old(self).text(), old(self).pos())),
    {
        if self.pos >= self.chars.len() {
            return Err(self.make_error(ErrorKind::UnexpectedEnd));
        }
        let c = self.chars[self.pos];
        if c != '"' {
            return Err(self.make_error(ErrorKind::UnexpectedChar(c)));
        }
        self.bump();
        let start = self.pos;
        let mut output = String::new();
        while self.pos < self.chars.len() && self.chars[self.pos] != '"'
            invariant
                self.wf(),
                self.chars@ == old(self).chars@,
                old(self).pos < start <= self.pos <= self.chars.len(),
                start == old(self).pos + 1,
                quote_end(self.chars@, self.pos as int) == quote_end(self.chars@, start as int),
                output@ == self.chars@.subrange(start as int, self.pos as int),
            decreases self.chars.len() - self.pos,
        {
            push_char(&mut output, self.chars[self.pos]);
            self.bump();
            assert(output@ =~= self.chars@.subrange(start as int, self.pos as int));
        }
        if self.pos >= self.chars.len() {
            return Err(self.make_error(ErrorKind::UnterminatedString));
        }
        self.bump();
        Ok(JsonValue::String(output))
    }

    /// Parses a number: after whitespace, the maximal run of `-`, digits,
    /// `.` and `e`, which must form a floating-point literal. The value
    /// keeps that literal text.
    pub fn parse_number(&mut self) -> (r: Result<JsonValue, ParseError>)
        requires
            old(self).wf(),
        ensures
            final(self).wf(),
            final(self).text() == old(self).text(),
            final(self).pos() >= old(self).pos(),
            agrees(old(self).text(), r, final(self).pos(), parse_number_at(old(self).text(), old(self).pos())),
    {
        let start = self.pos;
        let (line, col) = (self.line, self.col);
        let mut text = String::new();
        while self.pos < self.chars.len() && number_char(self.chars[self.pos])
            invariant
                self.wf(),
                self.chars@ == old(self).chars@,
                start <= self.pos <= self.chars.len(),
                number_end(self.chars@, self.pos as int) == number_end(self.chars@, start as int),
                text@ == self.chars@.subrange(start as int, self.pos as int),
            decreases self.chars.len() - self.pos,
        {
            push_char(&mut text, self.chars[self.pos]);
            self.bump();
            assert(text@ =~= self.chars@.subrange(start as int, self.pos as int));
        }
        if !float_literal_in(&self.chars, start, self.pos) {
            return Err(ParseError { kind: ErrorKind::InvalidNumber(text), offset: start, line, col });
        }
        Ok(JsonValue::Number(text))
    }

    /// Consumes the maximal run of ASCII characters at the cursor, without
    /// skipping whitespace first, and returns it.
    pub fn parse_ident(&mut self) -> (r: String)
        requires
            old(self).wf(),
        ensures
            final(self).wf(),
            final(self).text() == old(self).text(),
            final(self).pos() == ident_end(old(self).text(), old(self).pos()),
            old(self).pos() <= final(self).pos() <= final(self).text().len(),
            r@ == old(self).text().subrange(old(self).pos(), final(self).pos()),
    {
        let start = self.pos;
        let mut output = String::new();
        while self.pos < self.chars.len() && ascii_char(self.chars[self.pos])
            invariant
                self.wf(),
                self.chars@ == old(self).chars@,
                start == old(self).pos,
                start <= self.pos <= self.chars.len(),
                ident_end(self.chars@, self.pos as int) == ident_end(self.chars@, start as int),
                output@ == self.chars@.subrange(start as int, self.pos as int),
            decreases self.chars.len() - self.pos,
        {
            push_char(&mut output, self.chars[self.pos]);
            self.bump();
            assert(output@ =~= self.chars@.subrange(start as int, self.pos as int));
        }
        output
    }

    /// Parses `true`, `false` or `null`: after whitespace, the maximal run
    /// of ASCII characters must be exactly one of the three words, so a
    /// keyword directly followed by further ASCII text is rejected.
    pub fn parse_bool_and_null(&mut self) -> (r: Result<JsonValue, ParseError>)
        requires
            old(self).wf(),
        ensures
            final(self).wf(),
            final(self).text() == old(self).text(),
            final(self).pos() >= old(self).pos(),
            agrees(old(self).text(), r, final(self).pos(), parse_keyword_at(old(self).text(), old(self).pos())),
    {
        let start = self.pos;
        let (line, col) = (self.line, self.col);
        let word = self.parse_ident();
        proof {
            reveal_strlit("true");
            reveal_strlit("false");
            reveal_strlit("null");
        }
        if word == String::from_str("true") {
            assert(word@ =~= seq!['t', 'r', 'u', 'e']);
            Ok(JsonValue::Bool(true))
        } else if word == String::from_str("false") {
            assert(word@ =~= seq!['f', 'a', 'l', 's', 'e']);
            Ok(JsonValue::Bool(false))
        } else if word == String::from_str("null") {
            assert(word@ =~= seq!['n', 'u', 'l', 'l']);
            Ok(JsonValue::Null)
        } else {
            assert("true"@ =~= seq!['t', 'r', 'u', 'e']);
            assert("false"@ =~= seq!['f', 'a', 'l', 's', 'e']);
            assert("null"@ =~= seq!['n', 'u', 'l', 'l']);
            Err(ParseError { kind: ErrorKind::UnknownKeyword(word), offset: start, line, col })
        }
    }

    /// Parses one value, dispatching on its first significant character.
    /// This is the entry point, and also what arrays and objects use for
    /// their nested values.
    pub fn parse(&mut self) -> (r: Result<JsonValue, ParseError>)
        requires
            old(self).wf(),
        ensures
            final(self).wf(),
            final(self).text() == old(self).text(),
            final(self).pos() >= old(self).pos(),
            agrees(old(self).text(), r, final(self).pos(), parse_value(old(self).text(), old(self).pos(), MAX_DEPTH as nat)),
    {
        self.parse_value_within(MAX_DEPTH)
    }

    /// Parses an array: after whitespace, `[`, then values separated by
    /// commas, then `]`. A comma directly before `]` is accepted.
    pub fn parse_array(&mut self) -> (r: Result<JsonValue, ParseError>)
        requires
            old(self).wf(),
        ensures
            final(self).wf(),
            final(self).text() == old(self).text(),
            final(self).pos() >= old(self).pos(),
            agrees(old(self).text(), r, final(self).pos(), parse_array_at(old(self).text(), old(self).pos(), MAX_DEPTH as nat)),
    {
        self.parse_array_within(MAX_DEPTH)
    }

    /// Parses an object: after whitespace, `{`, then `key: value` members
    /// separated by commas, then `}`. A key must be a string; a repeated key
    /// replaces the earlier value. A comma directly before `}` is accepted.
    pub fn parse_object(&mut self) -> (r: Result<JsonValue, ParseError>)
        requires
            old(self).wf(),
        ensures
            final(self).wf(),
            final(self).text() == old(self).text(),
            final(self).pos() >= old(self).pos(),
            agrees(old(self).text(), r, final(self).pos(), parse_object_at(old(self).text(), old(self).pos(), MAX_DEPTH as nat)),
    {
        self.parse_object_within(MAX_DEPTH)
    }

    /// `parse`, allowing `depth` levels of nesting.
    fn parse_value_within(&mut self, depth: usize) -> (r: Result<JsonValue, ParseError>)
        requires
            old(self).wf(),
        ensures
            final(self).wf(),
            final(self).text() == old(self).text(),
            final(self).pos() >= old(self).pos(),
            agrees(old(self).text(), r, final(self).pos(), parse_value(old(self).text(), old(self).pos(), depth as nat)),
        decreases depth, 1int,
    {
        let c = match self.peek() {
            None => {
                return Err(self.make_error(ErrorKind::UnexpectedEnd));
            },
            Some(c) => c,
        };
        if c == '"' {
            self.parse_string()
        } else if ('0' <= c && c <= '9') || c == '-' {
            self.parse_number()
        } else if c == '{' {
            self.parse_object_within(depth)
        } else if c == '[' {
            self.parse_array_within(depth)
        } else if c == 't' || c == 'f' || c == 'n' {
            self.parse_bool_and_null()
        } else {
            Err(self.make_error(ErrorKind::UnsupportedChar(c)))
        }
    }

    /// `parse_array`, allowing `depth` levels of nesting.
    fn parse_array_within(&mut self, depth: usize) -> (r: Result<JsonValue, ParseError>)
        requires
            old(self).wf(),
        ensures
            final(self).wf(),
            final(self).text() == old(self).text(),
            final(self).pos() >= old(self).pos(),
            agrees(old(self).text(), r, final(self).pos(), parse_array_at(old(self).text(), old(self).pos(), depth as nat)),
        decreases depth, 0int,
    {
        if self.pos >= self.chars.len() {
            return Err(self.make_error(ErrorKind::UnexpectedEnd));
        }
        let c = self.chars[self.pos];
        if c != '[' {
            return Err(self.make_error(ErrorKind::UnexpectedChar(c)));
        }
        if depth == 0 {
            return Err(self.make_error(ErrorKind::TooDeep));
        }
        self.bump();
        let ghost s = self.chars@;
        let mut items: Vec<JsonValue> = Vec::new();
        loop
            invariant
                self.wf(),
                self.chars@ == s,
                s == old(self).chars@,
                old(self).pos < self.pos <= s.len(),
                depth > 0,
                parse_array_at(s, old(self).pos as int, depth as nat) == parse_elements(
                    s,
                    self.pos as int,
                    depth as nat,
                    jsons_of(items@),
                ),
            decreases s.len() - self.pos,
        {
            match self.peek() {
                None => {
                    return Err(self.make_error(ErrorKind::UnexpectedEnd));
                },
                Some(c) => {
                    if c == ']' {
                        self.bump();
                        return Ok(JsonValue::Array(items));
                    }
                },
            }
            let v = match self.parse_value_within(depth - 1) {
                Err(e) => {
                    return Err(e);
                },
                Ok(v) => v,
            };
            let ghost before = items@;
            items.push(v);
            assert(items@.drop_last() =~= before);
            match self.peek() {
                None => {
                    return Err(self.make_error(ErrorKind::UnexpectedEnd));
                },
                Some(c) => {
                    if c == ']' {
                        self.bump();
                        return Ok(JsonValue::Array(items));
                    } else if c == ',' {
                        self.bump();
                    } else {
                        return Err(self.make_error(ErrorKind::UnexpectedChar(c)));
                    }
                },
            }
        }
    }

    /// `parse_object`, allowing `depth` levels of nesting.
    fn parse_object_within(&mut self, depth: usize) -> (r: Result<JsonValue, ParseError>)
        requires
            old(self).wf(),
        ensures
            final(self).wf(),
            final(self).text() == old(self).text(),
            final(self).pos() >= old(self).pos(),
            agrees(old(self).text(), r, final(self).pos(), parse_object_at(old(self).text(), old(self).pos(), depth as nat)),
        decreases depth, 0int,
    {
        if self.pos >= self.chars.len() {
            return Err(self.make_error(ErrorKind::UnexpectedEnd));
        }
        let c = self.chars[self.pos];
        if c != '{' {
            return Err(self.make_error(ErrorKind::UnexpectedChar(c)));
        }
        if depth == 0 {
            return Err(self.make_error(ErrorKind::TooDeep));
        }
        self.bump();
        let ghost s = self.chars@;
        let mut object = JsonObject::new();
        loop
            invariant
                self.wf(),
                self.chars@ == s,
                s == old(self).chars@,
                old(self).pos < self.pos <= s.len(),
                depth > 0,
                object.wf(),
                parse_object_at(s, old(self).pos as int, depth as nat) == parse_members(
                    s,
                    self.pos as int,
                    depth as nat,
                    object.model(),
                ),
            decreases s.len() - self.pos,
        {
            match self.peek() {
                None => {
                    return Err(self.make_error(ErrorKind::UnexpectedEnd));
                },
                Some(c) => {
                    if c == '}' {
                        self.bump();
                        return Ok(JsonValue::Object(object));
                    }
                },
            }
            let key_start = self.make_error(ErrorKind::UnexpectedEnd);
            let key = match self.parse_value_within(depth - 1) {
                Err(e) => {
                    return Err(e);
                },
                Ok(JsonValue::String(key)) => key,
                Ok(other) => {
                    return Err(ParseError { kind: ErrorKind::KeyNotString(value_kind(&other)), ..key_start });
                },
            };
            match self.peek() {
                None => {
                    return Err(self.make_error(ErrorKind::UnexpectedEnd));
                },
                Some(c) => {
                    if c != ':' {
                        return Err(self.make_error(ErrorKind::UnexpectedChar(c)));
                    }
                },
            }
            self.bump();
            let v = match self.parse_value_within(depth - 1) {
                Err(e) => {
                    return Err(e);
                },
                Ok(v) => v,
            };
            object.insert(key, v);
            match self.peek() {
                None => {
                    return Err(self.make_error(ErrorKind::UnexpectedEnd));
                },
                Some(c) => {
                    if c == '}' {
                        self.bump();
                        return Ok(JsonValue::Object(object));
                    } else if c == ',' {
                        self.bump();
                    } else {
                        return Err(self.make_error(ErrorKind::UnexpectedChar(c)));
                    }
                },
            }
        }
    }
}

} // verus!
