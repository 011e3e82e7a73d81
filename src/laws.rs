//! Properties of the grammar and of the parser's results.
use vstd::prelude::*;
use crate::error::ParseError;
use crate::grammar::{
    first_index, is_digit, is_float_literal, is_number_char, is_ws, lemma_index_from, lemma_run_end,
    number_end, parse_array_at, parse_elements, parse_members,
    parse_object_at, parse_text, parse_value, run_end, skip_ws, unsigned_part, MAX_DEPTH,
};
use crate::parser::agrees;
use crate::value::{Json, JsonValue};

verus! {

/// A run that starts where every later character satisfies `p` reaches the end.
proof fn lemma_run_to_end(s: Seq<char>, i: int, p: spec_fn(char) -> bool)
    requires
        0 <= i <= s.len(),
        forall|j: int| i <= j < s.len() ==> p(#[trigger] s[j]),
    ensures
        run_end(s, i, p) == s.len(),
    decreases s.len() - i,
{
    if i < s.len() {
        lemma_run_to_end(s, i + 1, p);
    }
}

/// Every character of a mantissa is a digit or a point.
proof fn lemma_mantissa_chars(m: Seq<char>)
    requires
        crate::grammar::is_mantissa(m),
    ensures
        forall|x: int| 0 <= x < m.len() ==> is_number_char(#[trigger] m[x]),
{
    let d = first_index(m, '.');
    lemma_index_from(m, '.', 0);
    assert forall|x: int| 0 <= x < m.len() implies is_number_char(#[trigger] m[x]) by {
        if d < m.len() {
            if x < d {
                assert(m.take(d)[x] == m[x]);
            } else if x > d {
                assert(m.skip(d + 1)[x - d - 1] == m[x]);
            }
        }
    }
}

/// Every character of a floating-point literal is a number character.
pub proof fn lemma_float_literal_chars(t: Seq<char>)
    requires
        is_float_literal(t),
    ensures
        forall|x: int| 0 <= x < t.len() ==> is_number_char(#[trigger] t[x]),
{
    let u = unsigned_part(t);
    let e = first_index(u, 'e');
    lemma_index_from(u, 'e', 0);
    lemma_mantissa_chars(u.take(e));
    let off: int = if t.len() > 0 && t[0] == '-' { 1 } else { 0 };
    assert forall|x: int| 0 <= x < u.len() implies is_number_char(#[trigger] u[x]) by {
        if x < e {
            assert(u.take(e)[x] == u[x]);
        } else if x > e {
            let w = u.skip(e + 1);
            assert(w[x - e - 1] == u[x]);
            let z = unsigned_part(w);
            if w.len() > 0 && w[0] == '-' {
                if x - e - 1 > 0 {
                    assert(z[x - e - 2] == w[x - e - 1]);
                }
            } else {
                assert(z[x - e - 1] == w[x - e - 1]);
            }
        }
    }
    assert forall|x: int| 0 <= x < t.len() implies is_number_char(#[trigger] t[x]) by {
        if off == 1 {
            if x > 0 {
                assert(u[x - 1] == t[x]);
            }
        } else {
            assert(u[x] == t[x]);
        }
    }
}

/// A number written as its literal text parses to a number holding exactly
/// that text, and the whole text is consumed.
pub proof fn lemma_number_text(t: Seq<char>)
    requires
        is_float_literal(t),
        t.len() > 0,
        is_digit(t[0]) || t[0] == '-',
    ensures
        parse_text(t) == Ok::<(Json, int), (crate::error::Fault, int)>((Json::Number(t), t.len() as int)),
{
    lemma_float_literal_chars(t);
    lemma_run_to_end(t, 0, |c: char| is_number_char(c));
    assert(number_end(t, 0) == t.len());
    assert(skip_ws(t, 0) == 0);
    assert(t.subrange(0, t.len() as int) =~= t);
}

/// Skipping whitespace a second time moves no further, so looking ahead
/// twice without consuming sees the same character.
pub proof fn lemma_skip_ws_idempotent(s: Seq<char>, i: int)
    requires
        0 <= i <= s.len(),
    ensures
        skip_ws(s, skip_ws(s, i)) == skip_ws(s, i),
{
    lemma_run_end(s, i, |c: char| is_ws(c));
}

/// Whether two parse results are structurally equal: equal value models,
/// or equal errors.
pub open spec fn same_result(a: Result<JsonValue, ParseError>, b: Result<JsonValue, ParseError>) -> bool {
    match (a, b) {
        (Ok(x), Ok(y)) => x@ == y@,
        (Err(x), Err(y)) => x.kind@ == y.kind@ && x.offset == y.offset && x.line == y.line
            && x.col == y.col,
        _ => false,
    }
}

/// Parsing is deterministic: two parses of the same text from the same
/// position give structurally equal results and stop at the same place.
pub proof fn lemma_parse_deterministic(
    s: Seq<char>,
    i: int,
    a: Result<JsonValue, ParseError>,
    end_a: int,
    b: Result<JsonValue, ParseError>,
    end_b: int,
)
    requires
        agrees(s, a, end_a, parse_value(s, i, MAX_DEPTH as nat)),
        agrees(s, b, end_b, parse_value(s, i, MAX_DEPTH as nat)),
    ensures
        same_result(a, b),
        a is Ok ==> end_a == end_b,
{
}

} // verus!


verus! {

proof fn lemma_skip_ws_bounds(s: Seq<char>, i: int)
    requires
        0 <= i,
    ensures
        i <= skip_ws(s, i),
        i <= s.len() ==> skip_ws(s, i) <= s.len(),
{
    if i <= s.len() {
        lemma_run_end(s, i, |c: char| is_ws(c));
    }
}

proof fn lemma_value_advances(s: Seq<char>, i: int, d: nat)
    requires
        0 <= i,
    ensures
        parse_value(s, i, d) is Ok ==> parse_value(s, i, d)->Ok_0.1 > i,
    decreases d, 2int, 0int,
{
    let k = skip_ws(s, i);
    lemma_skip_ws_bounds(s, i);
    if k < s.len() {
        let c = s[k];
        if c == '"' {
            lemma_run_end(s, k + 1, |c: char| c != '"');
        } else if is_digit(c) || c == '-' {
            lemma_run_end(s, k, |c: char| is_number_char(c));
            let e = number_end(s, k);
            let t = s.subrange(k, e);
            if is_float_literal(t) && e == k {
                let u = unsigned_part(t);
                assert(u.len() == 0);
                assert(u.take(first_index(u, 'e')).len() == 0);
            }
        } else if c == '{' {
            lemma_members_advance(s, k + 1, d, Map::empty());
        } else if c == '[' {
            lemma_elements_advance(s, k + 1, d, Seq::empty());
        } else if c == 't' || c == 'f' || c == 'n' {
            lemma_run_end(s, k, |c: char| crate::grammar::is_ascii_char(c));
        }
    }
}

proof fn lemma_elements_advance(s: Seq<char>, j: int, d: nat, acc: Seq<Json>)
    requires
        0 <= j,
    ensures
        parse_elements(s, j, d, acc) is Ok ==> parse_elements(s, j, d, acc)->Ok_0.1 > j,
    decreases d, 0int, s.len() - j,
{
    let k = skip_ws(s, j);
    lemma_skip_ws_bounds(s, j);
    if k < s.len() && s[k] != ']' && d > 0 {
        lemma_value_advances(s, k, (d - 1) as nat);
        if let Ok((v, e)) = parse_value(s, k, (d - 1) as nat) {
            let p = skip_ws(s, e);
            lemma_skip_ws_bounds(s, e);
            if p < s.len() && s[p] == ',' && j <= p {
                lemma_elements_advance(s, p + 1, d, acc.push(v));
            }
        }
    }
}

proof fn lemma_members_advance(s: Seq<char>, j: int, d: nat, acc: Map<Seq<char>, Json>)
    requires
        0 <= j,
    ensures
        parse_members(s, j, d, acc) is Ok ==> parse_members(s, j, d, acc)->Ok_0.1 > j,
    decreases d, 0int, s.len() - j,
{
    let k = skip_ws(s, j);
    lemma_skip_ws_bounds(s, j);
    if k < s.len() && s[k] != '}' && d > 0 {
        lemma_value_advances(s, k, (d - 1) as nat);
        if let Ok((Json::Str(key), e1)) = parse_value(s, k, (d - 1) as nat) {
            let c = skip_ws(s, e1);
            lemma_skip_ws_bounds(s, e1);
            if c < s.len() && s[c] == ':' {
                lemma_value_advances(s, c + 1, (d - 1) as nat);
                if let Ok((v, e2)) = parse_value(s, c + 1, (d - 1) as nat) {
                    let q = skip_ws(s, e2);
                    lemma_skip_ws_bounds(s, e2);
                    if q < s.len() && s[q] == ',' && j <= q {
                        lemma_members_advance(s, q + 1, d, acc.insert(key, v));
                    }
                }
            }
        }
    }
}

/// A successful parse consumes at least one character: the value ends
/// after the position where parsing started.
pub proof fn lemma_parse_advances(s: Seq<char>, i: int)
    requires
        0 <= i,
    ensures
        parse_value(s, i, MAX_DEPTH as nat) is Ok ==> parse_value(s, i, MAX_DEPTH as nat)->Ok_0.1
            > i,
{
    lemma_value_advances(s, i, MAX_DEPTH as nat);
}

} // verus!

verus! {

/// Whether every character of `s[i..j]` is whitespace.
pub open spec fn all_ws(s: Seq<char>, i: int, j: int) -> bool {
    forall|x: int| i <= x < j ==> is_ws(#[trigger] s[x])
}

proof fn lemma_skip_ws_over(s: Seq<char>, i: int, j: int)
    requires
        0 <= i <= j <= s.len(),
        all_ws(s, i, j),
    ensures
        skip_ws(s, i) == skip_ws(s, j),
    decreases j - i,
{
    if i < j {
        lemma_skip_ws_over(s, i + 1, j);
    }
}

/// Whitespace in front of a value does not change how it parses: parsing
/// from before or from after a run of whitespace gives the same outcome.
pub proof fn lemma_whitespace_before_value(s: Seq<char>, i: int, j: int, d: nat)
    requires
        0 <= i <= j <= s.len(),
        all_ws(s, i, j),
    ensures
        parse_value(s, i, d) == parse_value(s, j, d),
{
    lemma_skip_ws_over(s, i, j);
}

/// Whitespace after `[` or after a comma, in front of the next element or
/// of `]`, does not change how the rest of the array parses.
pub proof fn lemma_whitespace_in_array(s: Seq<char>, i: int, j: int, d: nat, acc: Seq<Json>)
    requires
        0 <= i <= j <= s.len(),
        all_ws(s, i, j),
    ensures
        parse_elements(s, i, d, acc) == parse_elements(s, j, d, acc),
{
    lemma_skip_ws_over(s, i, j);
    let k = skip_ws(s, j);
    lemma_skip_ws_bounds(s, j);
    if k < s.len() && d > 0 {
        lemma_value_advances(s, k, (d - 1) as nat);
        if let Ok((v, e)) = parse_value(s, k, (d - 1) as nat) {
            lemma_skip_ws_bounds(s, e);
        }
    }
}

/// Whitespace after `{` or after a comma, in front of the next key or of
/// `}`, does not change how the rest of the object parses.
pub proof fn lemma_whitespace_in_object(s: Seq<char>, i: int, j: int, d: nat, acc: Map<Seq<char>, Json>)
    requires
        0 <= i <= j <= s.len(),
        all_ws(s, i, j),
    ensures
        parse_members(s, i, d, acc) == parse_members(s, j, d, acc),
{
    lemma_skip_ws_over(s, i, j);
    let k = skip_ws(s, j);
    lemma_skip_ws_bounds(s, j);
    if k < s.len() && d > 0 {
        lemma_value_advances(s, k, (d - 1) as nat);
        if let Ok((key, e1)) = parse_value(s, k, (d - 1) as nat) {
            lemma_skip_ws_bounds(s, e1);
            let c = skip_ws(s, e1);
            if c < s.len() {
                lemma_value_advances(s, c + 1, (d - 1) as nat);
                if let Ok((v, e2)) = parse_value(s, c + 1, (d - 1) as nat) {
                    lemma_skip_ws_bounds(s, e2);
                }
            }
        }
    }
}

} // verus!
