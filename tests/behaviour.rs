use tumekiri::{ErrorKind, JsonParser, JsonValue, ValueKind, MAX_DEPTH};

fn num(text: &str) -> JsonValue {
    JsonValue::Number(text.to_string())
}

fn parse_ok(input: &str) -> JsonValue {
    JsonParser::new(input).parse().unwrap()
}

fn parse_err(input: &str) -> tumekiri::ParseError {
    JsonParser::new(input).parse().unwrap_err()
}

#[test]
fn float_text_round_trips() {
    for n in [0.5f64, -3.25, 1e-7, 123456789.0, -0.0, 2.5e20, 7.0] {
        let text = format!("{}", n);
        let value = parse_ok(&text);
        assert_eq!(value, JsonValue::Number(text.clone()));
        match value {
            JsonValue::Number(t) => assert_eq!(t.parse::<f64>().unwrap(), n),
            other => panic!("expected a number, got {:?}", other),
        }
    }
}

#[test]
fn number_literal_forms() {
    assert_eq!(parse_ok("1."), num("1."));
    assert_eq!(parse_ok("-.5"), num("-.5"));
    assert_eq!(parse_ok("2e-3"), num("2e-3"));
    assert_eq!(parse_ok("007"), num("007"));
    for input in ["1.2.3", "1ee2", "1e", "-.", "1-2"] {
        assert_eq!(parse_err(input).kind, ErrorKind::InvalidNumber(input.to_string()));
    }
    let e = parse_err("[1, 1.2.3]");
    assert_eq!(e.offset, 4);
    assert_eq!(e.message(), "invalid number: 1.2.3");
}

#[test]
fn number_stops_at_other_characters() {
    let mut p = JsonParser::new("12 , x");
    assert_eq!(p.parse_number().unwrap(), num("12"));
    assert_eq!(p.next(), Some(','));
}

#[test]
fn strings_empty_and_literal() {
    assert_eq!(parse_ok(r#""""#), JsonValue::String(String::new()));
    assert_eq!(parse_ok(r#""string""#), JsonValue::String("string".to_string()));
    assert_eq!(parse_ok(r#"  " a\n b ""#), JsonValue::String(" a\\n b ".to_string()));
    assert_eq!(parse_ok("\"\u{e9}t\u{e9}\""), JsonValue::String("\u{e9}t\u{e9}".to_string()));
}

#[test]
fn arrays_empty_flat_and_spaced() {
    assert_eq!(parse_ok("[]"), JsonValue::Array(vec![]));
    let expected = JsonValue::Array(vec![num("1"), num("2"), num("3")]);
    assert_eq!(parse_ok("[1,2,3]"), expected);
    assert_eq!(parse_ok(" [ 1 ,\t2 ,\r\n 3 ] "), expected);
}

#[test]
fn objects_empty_and_spaced() {
    match parse_ok("{}") {
        JsonValue::Object(o) => assert_eq!(o.len(), 0),
        other => panic!("expected an object, got {:?}", other),
    }
    for input in [r#"{"a":1,"b":2}"#, " { \"a\" : 1 ,\n \"b\" : 2 } "] {
        match parse_ok(input) {
            JsonValue::Object(o) => {
                assert_eq!(o.len(), 2);
                assert_eq!(o.get("a"), Some(&num("1")));
                assert_eq!(o.get("b"), Some(&num("2")));
                assert_eq!(o.get("c"), None);
            }
            other => panic!("expected an object, got {:?}", other),
        }
    }
}

#[test]
fn repeated_key_last_wins() {
    match parse_ok(r#"{"a":1,"b":2,"a":3}"#) {
        JsonValue::Object(o) => {
            assert_eq!(o.len(), 2);
            assert_eq!(o.get("a"), Some(&num("3")));
            assert_eq!(o.get("b"), Some(&num("2")));
        }
        other => panic!("expected an object, got {:?}", other),
    }
}

#[test]
fn keywords_exact() {
    assert_eq!(parse_ok("true"), JsonValue::Bool(true));
    assert_eq!(parse_ok("false"), JsonValue::Bool(false));
    assert_eq!(parse_ok("null"), JsonValue::Null);
    for input in ["tru", "nul", "truex", "fals", "nulll"] {
        assert_eq!(parse_err(input).kind, ErrorKind::UnknownKeyword(input.to_string()));
    }
    assert_eq!(parse_err("truex").message(), "expected true, false or null, found: truex");
}

#[test]
fn keyword_takes_whole_ascii_run() {
    // The run of ASCII characters includes spaces and delimiters.
    assert_eq!(parse_err("[true]").kind, ErrorKind::UnknownKeyword("true]".to_string()));
    assert_eq!(parse_err("true ").kind, ErrorKind::UnknownKeyword("true ".to_string()));
    // A non-ASCII character ends the run.
    let mut p = JsonParser::new("true\u{e9}");
    assert_eq!(p.parse().unwrap(), JsonValue::Bool(true));
    assert_eq!(p.peek(), Some('\u{e9}'));
}

#[test]
fn nested_structures() {
    let value = parse_ok(r#"[1,2,3,[],[1,"string"]]"#);
    match value {
        JsonValue::Array(items) => {
            assert_eq!(items.len(), 5);
            assert_eq!(items[3], JsonValue::Array(vec![]));
            assert_eq!(
                items[4],
                JsonValue::Array(vec![num("1"), JsonValue::String("string".to_string())])
            );
        }
        other => panic!("expected an array, got {:?}", other),
    }
}

#[test]
fn malformed_inputs_fail() {
    assert_eq!(parse_err(r#""abc"#).kind, ErrorKind::UnterminatedString);
    assert_eq!(parse_err("[1 2]").kind, ErrorKind::UnexpectedChar('2'));
    assert_eq!(parse_err(r#"{"a" 1}"#).kind, ErrorKind::UnexpectedChar('1'));
    assert_eq!(parse_err("-").kind, ErrorKind::InvalidNumber("-".to_string()));
    assert_eq!(parse_err("#").kind, ErrorKind::UnsupportedChar('#'));
    assert_eq!(parse_err("").kind, ErrorKind::UnexpectedEnd);
    assert_eq!(parse_err("   \n ").kind, ErrorKind::UnexpectedEnd);
}

#[test]
fn unterminated_containers_fail() {
    assert_eq!(parse_err("[1,2").kind, ErrorKind::UnexpectedEnd);
    assert_eq!(parse_err("[").kind, ErrorKind::UnexpectedEnd);
    assert_eq!(parse_err(r#"{"a":1"#).kind, ErrorKind::UnexpectedEnd);
    assert_eq!(parse_err(r#"{"a""#).kind, ErrorKind::UnexpectedEnd);
}

#[test]
fn object_errors() {
    assert_eq!(parse_err("{1:2}").kind, ErrorKind::KeyNotString(ValueKind::Number));
    assert_eq!(parse_err("{[]:2}").kind, ErrorKind::KeyNotString(ValueKind::Array));
    assert_eq!(parse_err("{1:2}").message(), "object key must be a string, found a number");
    assert_eq!(parse_err(r#"{"a":1 "b":2}"#).kind, ErrorKind::UnexpectedChar('"'));
    assert_eq!(parse_err("{,}").kind, ErrorKind::UnsupportedChar(','));
}

#[test]
fn trailing_commas_accepted() {
    assert_eq!(parse_ok("[1,2,]"), JsonValue::Array(vec![num("1"), num("2")]));
    match parse_ok(r#"{"a":1,}"#) {
        JsonValue::Object(o) => assert_eq!(o.get("a"), Some(&num("1"))),
        other => panic!("expected an object, got {:?}", other),
    }
    assert_eq!(parse_err("[1,,]").kind, ErrorKind::UnsupportedChar(','));
}

#[test]
fn nesting_limit() {
    let deep_ok = format!("{}{}", "[".repeat(MAX_DEPTH), "]".repeat(MAX_DEPTH));
    assert!(JsonParser::new(&deep_ok).parse().is_ok());
    let too_deep = format!("{}{}", "[".repeat(MAX_DEPTH + 1), "]".repeat(MAX_DEPTH + 1));
    let e = parse_err(&too_deep);
    assert_eq!(e.kind, ErrorKind::TooDeep);
    assert_eq!(e.offset, MAX_DEPTH);
}

#[test]
fn error_positions() {
    let e = parse_err("[1,\n  2 x]");
    assert_eq!(e.kind, ErrorKind::UnexpectedChar('x'));
    assert_eq!(e.offset, 8);
    assert_eq!(e.line, 1);
    assert_eq!(e.col, 4);
    assert_eq!(e.kind(), &ErrorKind::UnexpectedChar('x'));
    assert_eq!(e.message(), "unexpected character x");
}

#[test]
fn parsing_is_deterministic() {
    let input = r#"{"k": [1, "s", {"x": 2e3}], "z": []}"#;
    assert_eq!(parse_ok(input), parse_ok(input));
    assert_eq!(parse_err("[1 2]").offset, parse_err("[1 2]").offset);
}

#[test]
fn cursor_peek_and_next() {
    let mut p = JsonParser::new("  \n a b");
    assert_eq!(p.peek(), Some('a'));
    assert_eq!(p.peek(), Some('a'));
    assert_eq!(p.next(), Some('a'));
    assert_eq!(p.next(), Some('b'));
    assert_eq!(p.next(), None);
    assert_eq!(p.peek(), None);
    let e = p.make_error(ErrorKind::UnexpectedEnd);
    assert_eq!((e.offset, e.line, e.col), (7, 1, 4));
}

#[test]
fn identifier_run() {
    let mut p = JsonParser::new("ab c\u{e9}d");
    assert_eq!(p.parse_ident(), "ab c".to_string());
    assert_eq!(p.peek(), Some('\u{e9}'));
}

#[test]
fn rules_called_directly() {
    assert_eq!(JsonParser::new("\"q\"").parse_string().unwrap(), JsonValue::String("q".to_string()));
    assert_eq!(JsonParser::new("x").parse_string().unwrap_err().kind, ErrorKind::UnexpectedChar('x'));
    assert_eq!(JsonParser::new("[1]").parse_array().unwrap(), JsonValue::Array(vec![num("1")]));
    assert_eq!(JsonParser::new("{}").parse_array().unwrap_err().kind, ErrorKind::UnexpectedChar('{'));
    assert_eq!(JsonParser::new("[]").parse_object().unwrap_err().kind, ErrorKind::UnexpectedChar('['));
    assert_eq!(JsonParser::new("null").parse_bool_and_null().unwrap(), JsonValue::Null);
    assert_eq!(JsonParser::new("").parse_string().unwrap_err().kind, ErrorKind::UnexpectedEnd);
}

#[test]
fn rules_start_at_the_cursor() {
    let e = JsonParser::new(" 5").parse_number().unwrap_err();
    assert_eq!((e.kind, e.offset), (ErrorKind::InvalidNumber(String::new()), 0));
    let e = JsonParser::new(" true").parse_bool_and_null().unwrap_err();
    assert_eq!(e.kind, ErrorKind::UnknownKeyword(" true".to_string()));
    let e = JsonParser::new(" \"q\"").parse_string().unwrap_err();
    assert_eq!(e.kind, ErrorKind::UnexpectedChar(' '));
    let e = JsonParser::new(" [1]").parse_array().unwrap_err();
    assert_eq!(e.kind, ErrorKind::UnexpectedChar(' '));
    let e = JsonParser::new(" {}").parse_object().unwrap_err();
    assert_eq!(e.kind, ErrorKind::UnexpectedChar(' '));
    // `parse` skips the whitespace, then dispatches.
    assert_eq!(JsonParser::new(" 5").parse().unwrap(), num("5"));
    assert_eq!(JsonParser::new(" true").parse().unwrap(), JsonValue::Bool(true));
    let mut p = JsonParser::new("  5");
    assert_eq!(p.peek(), Some('5'));
    assert_eq!(p.parse_number().unwrap(), num("5"));
}

#[test]
fn other_messages() {
    assert_eq!(parse_err("").message(), "unexpected end of input");
    assert_eq!(parse_err("#").message(), "no value starts with #");
    assert_eq!(parse_err("\"ab").message(), "unterminated string");
    let deep = "[".repeat(MAX_DEPTH + 1);
    assert_eq!(parse_err(&deep).message(), "arrays and objects are nested too deeply");
}

#[test]
fn object_key_order_does_not_matter_to_lookups() {
    let a = parse_ok(r#"{"a":1,"b":2}"#);
    let b = parse_ok(r#"{"b":2,"a":1}"#);
    match (a, b) {
        (JsonValue::Object(x), JsonValue::Object(y)) => {
            assert_eq!(x.len(), y.len());
            for k in ["a", "b", "c"] {
                assert_eq!(x.get(k), y.get(k));
            }
        }
        other => panic!("expected two objects, got {:?}", other),
    }
}

#[test]
fn object_insert_and_get() {
    let mut o = tumekiri::JsonObject::new();
    o.insert("k".to_string(), num("1"));
    o.insert("j".to_string(), num("2"));
    o.insert("k".to_string(), JsonValue::Null);
    assert_eq!(o.len(), 2);
    assert_eq!(o.get("k"), Some(&JsonValue::Null));
    assert_eq!(o.get("j"), Some(&num("2")));
}

#[test]
fn clone_is_deep_and_equal() {
    let value = parse_ok(r#"{"a": [1, "x", {"b": []}]}"#);
    let copy = value.clone();
    assert_eq!(copy, value);
    match copy {
        JsonValue::Object(o) => assert_eq!(o.len(), 1),
        other => panic!("expected an object, got {:?}", other),
    }
}

#[test]
fn object_equality_ignores_entry_order() {
    assert_eq!(parse_ok(r#"{"a":1,"b":2}"#), parse_ok(r#"{"b":2,"a":1}"#));
    assert_eq!(parse_ok(r#"[{"a":[1,{"x":"y","z":2}],"b":{}}]"#), parse_ok(r#"[{"b":{},"a":[1,{"z":2,"x":"y"}]}]"#));
    assert_eq!(parse_ok(r#"{"a":1,"a":2}"#), parse_ok(r#"{"a":2}"#));
    assert_ne!(parse_ok(r#"{"a":1,"b":2}"#), parse_ok(r#"{"a":1,"b":3}"#));
    assert_ne!(parse_ok(r#"{"a":1,"b":2}"#), parse_ok(r#"{"a":1}"#));
    assert_ne!(parse_ok(r#"{"a":1}"#), parse_ok(r#"{"a":1,"b":2}"#));
    assert_ne!(parse_ok(r#"{"a":1}"#), parse_ok(r#"{"b":1}"#));
    assert_ne!(parse_ok("[1,2]"), parse_ok("[2,1]"));
    assert_ne!(parse_ok("[1]"), parse_ok("[1,1]"));
    assert_ne!(parse_ok("[]"), parse_ok("{}"));
}

#[test]
fn objects_compare_as_mappings() {
    let mut x = tumekiri::JsonObject::new();
    x.insert("a".to_string(), num("1"));
    x.insert("b".to_string(), JsonValue::Null);
    let mut y = tumekiri::JsonObject::new();
    y.insert("b".to_string(), JsonValue::Null);
    y.insert("a".to_string(), num("1"));
    assert!(x == y);
    y.insert("a".to_string(), num("2"));
    assert!(x != y);
}
