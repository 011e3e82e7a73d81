//! Parse errors.
use vstd::prelude::*;

verus! {

/// Relies on `String::push`: appends one character.
#[verifier::external_body]
pub(crate) fn push_char(s: &mut String, c: char)
    ensures
        final(s)@ == old(s)@.push(c),
{
    s.push(c)
}

/// The kind of a JSON value, as reported when a value of the wrong kind
/// stands where an object key is required.
#[derive(Debug, Clone, Copy, PartialEq, Eq, Structural)]
pub enum ValueKind {
    Number,
    Bool,
    String,
    Array,
    Object,
    Null,
}

/// What went wrong.
#[derive(Debug, Clone, PartialEq, Eq)]
pub enum ErrorKind {
    /// The input ended where a character was required.
    UnexpectedEnd,
    /// No value begins with this character.
    UnsupportedChar(char),
    /// A string has no closing quote.
    UnterminatedString,
    /// This run of number characters is not a floating-point literal.
    InvalidNumber(String),
    /// A delimiter was expected, but this character was found.
    UnexpectedChar(char),
    /// An object key is a value of this kind, not a string.
    KeyNotString(ValueKind),
    /// This run of ASCII characters is not `true`, `false` or `null`.
    UnknownKeyword(String),
    /// Arrays and objects are nested deeper than the parser allows.
    TooDeep,
}

/// The model of an `ErrorKind`, with texts as character sequences.
pub enum Fault {
    UnexpectedEnd,
    UnsupportedChar(char),
    UnterminatedString,
    InvalidNumber(Seq<char>),
    UnexpectedChar(char),
    KeyNotString(ValueKind),
    UnknownKeyword(Seq<char>),
    TooDeep,
}

impl View for ErrorKind {
    type V = Fault;

    open spec fn view(&self) -> Fault {
        match self {
            ErrorKind::UnexpectedEnd => Fault::UnexpectedEnd,
            ErrorKind::UnsupportedChar(c) => Fault::UnsupportedChar(*c),
            ErrorKind::UnterminatedString => Fault::UnterminatedString,
            ErrorKind::InvalidNumber(t) => Fault::InvalidNumber(t@),
            ErrorKind::UnexpectedChar(c) => Fault::UnexpectedChar(*c),
            ErrorKind::KeyNotString(k) => Fault::KeyNotString(*k),
            ErrorKind::UnknownKeyword(w) => Fault::UnknownKeyword(w@),
            ErrorKind::TooDeep => Fault::TooDeep,
        }
    }
}

/// A parse failure: its kind and where in the input it was detected.
#[derive(Debug)]
pub struct ParseError {
    pub kind: ErrorKind,
    /// Index of the character (counted in chars) at which the failure was
    /// detected; the input length for a failure at the end.
    pub offset: usize,
    /// Zero-based line of `offset`.
    pub line: usize,
    /// Zero-based column of `offset` within its line.
    pub col: usize,
}

/// How a value kind is named in messages.
pub open spec fn kind_name(k: ValueKind) -> Seq<char> {
    match k {
        ValueKind::Number => "a number"@,
        ValueKind::Bool => "a boolean"@,
        ValueKind::String => "a string"@,
        ValueKind::Array => "an array"@,
        ValueKind::Object => "an object"@,
        ValueKind::Null => "null"@,
    }
}

/// The text of the message describing a failure.
pub open spec fn message_of(f: Fault) -> Seq<char> {
    match f {
        Fault::UnexpectedEnd => "unexpected end of input"@,
        Fault::UnsupportedChar(c) => "no value starts with "@.push(c),
        Fault::UnterminatedString => "unterminated string"@,
        Fault::InvalidNumber(t) => "invalid number: "@ + t,
        Fault::UnexpectedChar(c) => "unexpected character "@.push(c),
        Fault::KeyNotString(k) => "object key must be a string, found "@ + kind_name(k),
        Fault::UnknownKeyword(w) => "expected true, false or null, found: "@ + w,
        Fault::TooDeep => "arrays and objects are nested too deeply"@,
    }
}

fn kind_name_text(k: ValueKind) -> (r: &'static str)
    ensures
        r@ == kind_name(k),
{
    match k {
        ValueKind::Number => "a number",
        ValueKind::Bool => "a boolean",
        ValueKind::String => "a string",
        ValueKind::Array => "an array",
        ValueKind::Object => "an object",
        ValueKind::Null => "null",
    }
}

impl ParseError {
    /// A description of the failure, naming the offending character, text
    /// or kind of value.
    pub fn message(&self) -> (r: String)
        ensures
            r@ == message_of(self.kind@),
    {
        match &self.kind {
            ErrorKind::UnexpectedEnd => String::from_str("unexpected end of input"),
            ErrorKind::UnsupportedChar(c) => {
                let mut m = String::from_str("no value starts with ");
                push_char(&mut m, *c);
                m
            },
            ErrorKind::UnterminatedString => String::from_str("unterminated string"),
            ErrorKind::InvalidNumber(t) => {
                let mut m = String::from_str("invalid number: ");
                m.append(t.as_str());
                m
            },
            ErrorKind::UnexpectedChar(c) => {
                let mut m = String::from_str("unexpected character ");
                push_char(&mut m, *c);
                m
            },
            ErrorKind::KeyNotString(k) => {
                let mut m = String::from_str("object key must be a string, found ");
                m.append(kind_name_text(*k));
                m
            },
            ErrorKind::UnknownKeyword(w) => {
                let mut m = String::from_str("expected true, false or null, found: ");
                m.append(w.as_str());
                m
            },
            ErrorKind::TooDeep => String::from_str("arrays and objects are nested too deeply"),
        }
    }

    pub fn kind(&self) -> (r: &ErrorKind)
        ensures
            r == &self.kind,
    {
        &self.kind
    }
}

} // verus!
