//! The grammar accepted by the parser, as spec functions over the input.
//!
//! `parse_value(s, i, d)` is the outcome of parsing one value of `s`
//! starting at index `i` with at most `d` levels of array/object nesting:
//! either the value and the index just past it, or an error kind and the
//! index at which the error is detected.
use vstd::prelude::*;
use crate::error::{Fault, ValueKind};
use crate::value::Json;

verus! {

pub type Outcome = Result<(Json, int), (Fault, int)>;

/// The nesting limit used by the public entry points.
pub const MAX_DEPTH: usize = 256;

pub open spec fn is_ws(c: char) -> bool {
    c == ' ' || c == '\t' || c == '\n' || c == '\r'
}

pub open spec fn is_digit(c: char) -> bool {
    '0' <= c && c <= '9'
}

pub open spec fn is_number_char(c: char) -> bool {
    c == '-' || is_digit(c) || c == '.' || c == 'e'
}

pub open spec fn is_ascii_char(c: char) -> bool {
    (c as u32) < 128
}

/// The end of the maximal run of characters satisfying `p` that starts at `i`.
pub open spec fn run_end(s: Seq<char>, i: int, p: spec_fn(char) -> bool) -> int
    decreases s.len() - i,
{
    if 0 <= i < s.len() && p(s[i]) {
        run_end(s, i + 1, p)
    } else {
        i
    }
}

pub proof fn lemma_run_end(s: Seq<char>, i: int, p: spec_fn(char) -> bool)
    requires
        0 <= i <= s.len(),
    ensures
        i <= run_end(s, i, p) <= s.len(),
        forall|j: int| i <= j < run_end(s, i, p) ==> p(#[trigger] s[j]),
        run_end(s, i, p) < s.len() ==> !p(s[run_end(s, i, p)]),
    decreases s.len() - i,
{
    if i < s.len() && p(s[i]) {
        lemma_run_end(s, i + 1, p);
    }
}

/// The index of the first significant (non-whitespace) character at or after `i`.
pub open spec fn skip_ws(s: Seq<char>, i: int) -> int {
    run_end(s, i, |c: char| is_ws(c))
}

/// The index of the first `"` at or after `i`, or the end of `s`.
pub open spec fn quote_end(s: Seq<char>, i: int) -> int {
    run_end(s, i, |c: char| c != '"')
}

/// The end of the run of number characters that starts at `i`.
pub open spec fn number_end(s: Seq<char>, i: int) -> int {
    run_end(s, i, |c: char| is_number_char(c))
}

/// The end of the run of ASCII characters that starts at `i`.
pub open spec fn ident_end(s: Seq<char>, i: int) -> int {
    run_end(s, i, |c: char| is_ascii_char(c))
}

/// The zero-based line of index `n`: the newlines before it.
pub open spec fn line_at(s: Seq<char>, n: int) -> nat
    decreases n,
{
    if n <= 0 {
        0
    } else {
        line_at(s, n - 1) + if s[n - 1] == '\n' { 1nat } else { 0nat }
    }
}

/// The zero-based column of index `n`: the characters since the last newline before it.
pub open spec fn col_at(s: Seq<char>, n: int) -> nat
    decreases n,
{
    if n <= 0 {
        0
    } else if s[n - 1] == '\n' {
        0
    } else {
        col_at(s, n - 1) + 1
    }
}

pub open spec fn all_digits(t: Seq<char>) -> bool {
    forall|i: int| 0 <= i < t.len() ==> is_digit(#[trigger] t[i])
}

/// The index of the first `c` in `t` at or after `i`, or `t.len()` when there is none.
pub open spec fn index_from(t: Seq<char>, c: char, i: int) -> int {
    run_end(t, i, |x: char| x != c)
}

pub proof fn lemma_index_from(t: Seq<char>, c: char, i: int)
    requires
        0 <= i <= t.len(),
    ensures
        i <= index_from(t, c, i) <= t.len(),
        forall|j: int| i <= j < index_from(t, c, i) ==> #[trigger] t[j] != c,
        index_from(t, c, i) < t.len() ==> t[index_from(t, c, i)] == c,
    decreases t.len() - i,
{
    if i < t.len() && t[i] != c {
        lemma_index_from(t, c, i + 1);
    }
}

/// The index of the first `c` in `t`, or `t.len()` when there is none.
pub open spec fn first_index(t: Seq<char>, c: char) -> int {
    index_from(t, c, 0)
}

/// `t` without one leading minus sign, if it has one.
pub open spec fn unsigned_part(t: Seq<char>) -> Seq<char> {
    if t.len() > 0 && t[0] == '-' {
        t.skip(1)
    } else {
        t
    }
}

/// Digits with at most one point, and at least one digit.
pub open spec fn is_mantissa(t: Seq<char>) -> bool {
    let d = first_index(t, '.');
    if d == t.len() {
        t.len() > 0 && all_digits(t)
    } else {
        t.len() >= 2 && all_digits(t.take(d)) && all_digits(t.skip(d + 1))
    }
}

/// An optional minus sign followed by one or more digits.
pub open spec fn is_exponent(t: Seq<char>) -> bool {
    let u = unsigned_part(t);
    u.len() > 0 && all_digits(u)
}

/// A decimal floating-point literal over the characters `-`, digits, `.`
/// and `e`: an optional minus sign, a mantissa, and optionally `e` followed
/// by an exponent.
pub open spec fn is_float_literal(t: Seq<char>) -> bool {
    let u = unsigned_part(t);
    let e = first_index(u, 'e');
    is_mantissa(u.take(e)) && (e == u.len() || is_exponent(u.skip(e + 1)))
}

pub open spec fn keyword_value(t: Seq<char>) -> Option<Json> {
    if t == seq!['t', 'r', 'u', 'e'] {
        Some(Json::Bool(true))
    } else if t == seq!['f', 'a', 'l', 's', 'e'] {
        Some(Json::Bool(false))
    } else if t == seq!['n', 'u', 'l', 'l'] {
        Some(Json::Null)
    } else {
        None
    }
}

/// The kind of a value.
pub open spec fn kind_of(j: Json) -> ValueKind {
    match j {
        Json::Number(_) => ValueKind::Number,
        Json::Bool(_) => ValueKind::Bool,
        Json::Str(_) => ValueKind::String,
        Json::Array(_) => ValueKind::Array,
        Json::Object(_) => ValueKind::Object,
        Json::Null => ValueKind::Null,
    }
}

/// A string at `i`: `"`, then every character up to the next `"`, taken
/// literally.
pub open spec fn parse_string_at(s: Seq<char>, i: int) -> Outcome {
    if i >= s.len() {
        Err((Fault::UnexpectedEnd, i))
    } else if s[i] != '"' {
        Err((Fault::UnexpectedChar(s[i]), i))
    } else {
        let e = quote_end(s, i + 1);
        if e >= s.len() {
            Err((Fault::UnterminatedString, e))
        } else {
            Ok((Json::Str(s.subrange(i + 1, e)), e + 1))
        }
    }
}

/// A number at `i`: the maximal run of number characters there, which must
/// form a floating-point literal (so an empty run fails).
pub open spec fn parse_number_at(s: Seq<char>, i: int) -> Outcome {
    let t = s.subrange(i, number_end(s, i));
    if is_float_literal(t) {
        Ok((Json::Number(t), number_end(s, i)))
    } else {
        Err((Fault::InvalidNumber(t), i))
    }
}

/// A keyword at `i`: the maximal run of ASCII characters there, which must
/// be exactly `true`, `false` or `null`.
pub open spec fn parse_keyword_at(s: Seq<char>, i: int) -> Outcome {
    let w = s.subrange(i, ident_end(s, i));
    match keyword_value(w) {
        Some(v) => Ok((v, ident_end(s, i))),
        None => Err((Fault::UnknownKeyword(w), i)),
    }
}

/// One value, chosen by its first significant character.
pub open spec fn parse_value(s: Seq<char>, i: int, d: nat) -> Outcome
    decreases d, 2int, 0int,
{
    let k = skip_ws(s, i);
    if k >= s.len() {
        Err((Fault::UnexpectedEnd, k))
    } else {
        let c = s[k];
        if c == '"' {
            parse_string_at(s, k)
        } else if is_digit(c) || c == '-' {
            parse_number_at(s, k)
        } else if c == '{' {
            parse_object_at(s, k, d)
        } else if c == '[' {
            parse_array_at(s, k, d)
        } else if c == 't' || c == 'f' || c == 'n' {
            parse_keyword_at(s, k)
        } else {
            Err((Fault::UnsupportedChar(c), k))
        }
    }
}

/// An array at `i`: `[`, then elements; its elements nest one level deeper.
pub open spec fn parse_array_at(s: Seq<char>, i: int, d: nat) -> Outcome
    decreases d, 1int, 0int,
{
    if i >= s.len() {
        Err((Fault::UnexpectedEnd, i))
    } else if s[i] != '[' {
        Err((Fault::UnexpectedChar(s[i]), i))
    } else if d == 0 {
        Err((Fault::TooDeep, i))
    } else {
        parse_elements(s, i + 1, d, Seq::empty())
    }
}

/// The rest of an array after `[` or after a comma, with the elements `acc`
/// read so far. A comma directly before `]` is accepted.
///
/// A value always ends after it starts, so the comma found after an element
/// lies at or after `j`; the test `j <= p` only makes the recursion visibly
/// decreasing. `d` is positive whenever this is reached from
/// `parse_array_at`.
pub open spec fn parse_elements(s: Seq<char>, j: int, d: nat, acc: Seq<Json>) -> Outcome
    decreases d, 0int, s.len() - j,
{
    let k = skip_ws(s, j);
    if k >= s.len() {
        Err((Fault::UnexpectedEnd, k))
    } else if s[k] == ']' {
        Ok((Json::Array(acc), k + 1))
    } else if d == 0 {
        Err((Fault::TooDeep, k))
    } else {
        match parse_value(s, k, (d - 1) as nat) {
            Err(e) => Err(e),
            Ok((v, e)) => {
                let p = skip_ws(s, e);
                if p >= s.len() {
                    Err((Fault::UnexpectedEnd, p))
                } else if s[p] == ']' {
                    Ok((Json::Array(acc.push(v)), p + 1))
                } else if s[p] == ',' && j <= p {
                    parse_elements(s, p + 1, d, acc.push(v))
                } else {
                    Err((Fault::UnexpectedChar(s[p]), p))
                }
            },
        }
    }
}

/// An object at `i`: `{`, then members; its keys and values nest one level deeper.
pub open spec fn parse_object_at(s: Seq<char>, i: int, d: nat) -> Outcome
    decreases d, 1int, 0int,
{
    if i >= s.len() {
        Err((Fault::UnexpectedEnd, i))
    } else if s[i] != '{' {
        Err((Fault::UnexpectedChar(s[i]), i))
    } else if d == 0 {
        Err((Fault::TooDeep, i))
    } else {
        parse_members(s, i + 1, d, Map::empty())
    }
}

/// The rest of an object after `{` or after a comma, with the entries `acc`
/// read so far. A key is parsed as any value and must turn out a string; a
/// repeated key replaces the earlier value. A comma directly before `}` is
/// accepted. The test `j <= q` holds whenever it is reached, as in
/// `parse_elements`.
pub open spec fn parse_members(s: Seq<char>, j: int, d: nat, acc: Map<Seq<char>, Json>) -> Outcome
    decreases d, 0int, s.len() - j,
{
    let k = skip_ws(s, j);
    if k >= s.len() {
        Err((Fault::UnexpectedEnd, k))
    } else if s[k] == '}' {
        Ok((Json::Object(acc), k + 1))
    } else if d == 0 {
        Err((Fault::TooDeep, k))
    } else {
        match parse_value(s, k, (d - 1) as nat) {
            Err(e) => Err(e),
            Ok((Json::Str(key), e1)) => {
                let c = skip_ws(s, e1);
                if c >= s.len() {
                    Err((Fault::UnexpectedEnd, c))
                } else if s[c] != ':' {
                    Err((Fault::UnexpectedChar(s[c]), c))
                } else {
                    match parse_value(s, c + 1, (d - 1) as nat) {
                        Err(e) => Err(e),
                        Ok((v, e2)) => {
                            let acc2 = acc.insert(key, v);
                            let q = skip_ws(s, e2);
                            if q >= s.len() {
                                Err((Fault::UnexpectedEnd, q))
                            } else if s[q] == '}' {
                                Ok((Json::Object(acc2), q + 1))
                            } else if s[q] == ',' && j <= q {
                                parse_members(s, q + 1, d, acc2)
                            } else {
                                Err((Fault::UnexpectedChar(s[q]), q))
                            }
                        },
                    }
                }
            },
            Ok((other, _)) => Err((Fault::KeyNotString(kind_of(other)), k)),
        }
    }
}

/// The outcome of parsing a whole text from its start.
pub open spec fn parse_text(s: Seq<char>) -> Outcome {
    parse_value(s, 0, MAX_DEPTH as nat)
}

} // verus!
