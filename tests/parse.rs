use tumekiri::{JsonParser, JsonValue};

fn number_of(value: &JsonValue) -> f64 {
    match value {
        JsonValue::Number(text) => text.parse::<f64>().unwrap(),
        other => panic!("expected a number, got {:?}", other),
    }
}

fn num(text: &str) -> JsonValue {
    JsonValue::Number(text.to_string())
}


#[test]
fn parse_string_test() {
    let input = r#""string""#;
    let parse_result = JsonParser::new(input).parse();

    assert!(parse_result.is_ok());

    let value = parse_result.unwrap();

    assert_eq!(value, JsonValue::String("string".to_string()));
}

#[test]
fn parse_number_test() {
    let in_out = vec![
        ("111", 111.0),
        ("1.0", 1.0),
        ("0.0", 0.0),
        ("1e12", 1e12),
        ("-55", -55.0),
        ("-55.5", -55.5),
        ("-1e12", -1e12),
    ];

    for (input, out) in in_out {
        let parse_result = JsonParser::new(input).parse();

        assert!(parse_result.is_ok());

        let value = parse_result.unwrap();

        assert_eq!(value, JsonValue::Number(input.to_string()));
        assert_eq!(number_of(&value), out);
    }
}

#[test]
fn parse_array_test() {
    let in_out = vec![
        (
            "[1,2,3  ,4,   5]",
            JsonValue::Array(vec![num("1"), num("2"), num("3"), num("4"), num("5")]),
        ),
        (
            r#"[1,2,3, [], [1, "string"]]"#,
            JsonValue::Array(vec![
                num("1"),
                num("2"),
                num("3"),
                JsonValue::Array(vec![]),
                JsonValue::Array(vec![num("1"), JsonValue::String("string".to_string())]),
            ]),
        ),
    ];

    for (input, out) in in_out {
        let value = JsonParser::new(input).parse().unwrap();

        assert_eq!(value, out);
    }
}

#[test]
fn parse_object_test() {
    let input = r#"
{
  "squadName": "Super hero squad",
  "homeTown": "Metro City",
  "formed": 2016,
  "secretBase": "Super tower",
  }
        "#;

    let parse_result = JsonParser::new(input).parse();

    let value = parse_result.unwrap();

    let object = match value {
        JsonValue::Object(object) => object,
        other => panic!("expected an object, got {:?}", other),
    };
    assert_eq!(object.len(), 4);
    assert_eq!(
        object.get("squadName"),
        Some(&JsonValue::String("Super hero squad".to_string()))
    );
    assert_eq!(object.get("homeTown"), Some(&JsonValue::String("Metro City".to_string())));
    assert_eq!(number_of(object.get("formed").unwrap()), 2016.0);
    assert_eq!(object.get("secretBase"), Some(&JsonValue::String("Super tower".to_string())));
}

#[test]
fn parse_bool_and_null_test() {
    let in_out = vec![
        ("true", JsonValue::Bool(true)),
        ("false", JsonValue::Bool(false)),
        ("null", JsonValue::Null),
    ];

    for (input, out) in in_out {
        let parse_result = JsonParser::new(input).parse();

        assert!(parse_result.is_ok());

        let value = parse_result.unwrap();

        assert_eq!(value, out);
    }
}
