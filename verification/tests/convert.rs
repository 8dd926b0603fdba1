use yaml_json::{convert_to_json, convert_to_yaml, encode_json, encode_yaml, parse_json, parse_yaml, Value};

#[test]
fn test_convert_yaml_to_json() {
    let yaml_content = r#"
name: John Doe
age: 30
skills:
  - Rust
  - Testing
"#;
    let result = convert_to_json(yaml_content);
    assert!(result.is_ok());
    let json_output = result.unwrap();
    assert!(json_output.contains("John Doe"));
    assert!(json_output.contains("30"));
    assert!(json_output.contains("Rust"));
}

#[test]
fn test_convert_json_to_yaml() {
    let json_content = r#"{
    "name": "John Doe",
    "age": 30,
    "skills": ["Rust", "Testing"]
}"#;
    let result = convert_to_yaml(json_content);
    assert!(result.is_ok());
    let yaml_output = result.unwrap();
    assert!(yaml_output.contains("John Doe"));
    assert!(yaml_output.contains("age: 30"));
    assert!(yaml_output.contains("- Rust"));
}

#[test]
fn test_invalid_yaml_conversion() {
    let invalid_yaml = "invalid: : yaml";
    let result = convert_to_json(invalid_yaml);
    assert!(result.is_err());
}

#[test]
fn test_invalid_json_conversion() {
    let invalid_json = "{invalid: json}";
    let result = convert_to_yaml(invalid_json);
    assert!(result.is_err());
}

fn sample_tree() -> Value {
    Value::Dict(vec![
        (String::from("name"), Value::Str(String::from("John Doe"))),
        (String::from("age"), Value::Int(30)),
        (
            String::from("skills"),
            Value::List(vec![
                Value::Str(String::from("Rust")),
                Value::Str(String::from("Testing")),
            ]),
        ),
    ])
}

#[test]
fn exact_yaml_to_json_text() {
    let yaml_content = "name: John Doe\nage: 30\nskills:\n  - Rust\n  - Testing\n";
    let out = convert_to_json(yaml_content).unwrap();
    assert_eq!(
        out,
        "{\n  \"name\": \"John Doe\",\n  \"age\": 30,\n  \"skills\": [\n    \"Rust\",\n    \"Testing\"\n  ]\n}\n"
    );
}

#[test]
fn exact_json_to_yaml_text() {
    let json_content = "{\"name\":\"John Doe\",\"age\":30,\"skills\":[\"Rust\",\"Testing\"]}";
    let out = convert_to_yaml(json_content).unwrap();
    assert_eq!(out, "name: John Doe\nage: 30\nskills:\n  - Rust\n  - Testing\n");
}

#[test]
fn round_trip_json() {
    let v = sample_tree();
    let text = encode_json(&v);
    let back = parse_json(&text).unwrap();
    assert_eq!(back, v);
}

#[test]
fn round_trip_yaml() {
    let v = sample_tree();
    let text = encode_yaml(&v);
    let back = parse_yaml(&text).unwrap();
    assert_eq!(back, v);
}

#[test]
fn round_trip_scalars_and_empties() {
    let v = Value::List(vec![
        Value::Null,
        Value::Bool(true),
        Value::Bool(false),
        Value::Int(0),
        Value::Int(-7),
        Value::Int(i64::MAX),
        Value::Int(i64::MIN),
        Value::Str(String::new()),
        Value::Str(String::from("plain text")),
        Value::Str(String::from("needs \"quoting\"\nand\tescapes\\")),
        Value::Str(String::from("30")),
        Value::Str(String::from("true")),
        Value::Str(String::from("- not a list")),
        Value::Str(String::from("1.5")),
        Value::Str(String::from("&anchor")),
        Value::Str(String::from("key: not a map")),
        Value::List(vec![]),
        Value::Dict(vec![]),
    ]);
    let jt = encode_json(&v);
    assert_eq!(parse_json(&jt).unwrap(), v);
    let yt = encode_yaml(&v);
    assert_eq!(parse_yaml(&yt).unwrap(), v);
}

#[test]
fn round_trip_nested() {
    let v = Value::Dict(vec![
        (
            String::from("outer"),
            Value::Dict(vec![
                (String::from("inner"), Value::List(vec![Value::Int(1), Value::Int(2)])),
                (String::from("empty"), Value::Dict(vec![])),
            ]),
        ),
        (String::from("list"), Value::List(vec![Value::List(vec![Value::Null])])),
    ]);
    let jt = encode_json(&v);
    assert_eq!(parse_json(&jt).unwrap(), v);
    let yt = encode_yaml(&v);
    assert_eq!(parse_yaml(&yt).unwrap(), v);
}

#[test]
fn encoding_is_deterministic() {
    let v = sample_tree();
    assert_eq!(encode_json(&v), encode_json(&v));
    assert_eq!(encode_yaml(&v), encode_yaml(&v));
}

#[test]
fn reencoding_is_stable() {
    let yaml_content = "# a comment\nname: John Doe   \n\nage: 30\n";
    let first = parse_yaml(yaml_content).unwrap();
    let reencoded = encode_yaml(&first);
    let second = parse_yaml(&reencoded).unwrap();
    assert_eq!(first, second);
}

#[test]
fn integer_literals() {
    let v = parse_json("[0, -1, 9223372036854775807, -9223372036854775808]").unwrap();
    assert_eq!(
        v,
        Value::List(vec![
            Value::Int(0),
            Value::Int(-1),
            Value::Int(i64::MAX),
            Value::Int(i64::MIN),
        ])
    );
    assert_eq!(encode_json(&Value::Int(-42)), "-42\n");
}

#[test]
fn yaml_scalar_classification() {
    let v = parse_yaml("a: null\nb: ~\nc: true\nd: false\ne: 30\nf: 030\ng: \"30\"\n").unwrap();
    assert_eq!(
        v,
        Value::Dict(vec![
            (String::from("a"), Value::Null),
            (String::from("b"), Value::Null),
            (String::from("c"), Value::Bool(true)),
            (String::from("d"), Value::Bool(false)),
            (String::from("e"), Value::Int(30)),
            (String::from("f"), Value::Str(String::from("030"))),
            (String::from("g"), Value::Str(String::from("30"))),
        ])
    );
}

#[test]
fn malformed_inputs_fail() {
    assert!(parse_json("{").is_err());
    assert!(parse_json("[1,").is_err());
    assert!(parse_json("\"unterminated").is_err());
    assert!(parse_json("01").is_err());
    assert!(parse_json("1 2").is_err());
    assert!(parse_json("\"bad \\x escape\"").is_err());
    assert!(parse_json("9223372036854775808").is_err());
    assert!(parse_yaml(": no key").is_err());
    assert!(parse_yaml("a: 1\nplop\n").is_err());
}

#[test]
fn duplicate_keys_fail() {
    assert!(parse_json("{\"a\": 1, \"a\": 2}").is_err());
    assert!(parse_yaml("a: 1\na: 2\n").is_err());
}

#[test]
fn comments_and_blanks_are_dropped() {
    let v = parse_yaml("# heading\n\nname: x # a trailing comment\n").unwrap();
    assert_eq!(v, Value::Dict(vec![(String::from("name"), Value::Str(String::from("x")))]));
    let v2 = parse_yaml("# heading\n\nname: x\n").unwrap();
    assert_eq!(v, v2);
}

#[test]
fn inline_and_block_collections_agree() {
    let inline = convert_to_json("[Rust]\n").unwrap();
    let block = convert_to_json("- Rust\n").unwrap();
    assert_eq!(inline, block);
    let m1 = parse_yaml("{name: John Doe, age: 30}\n").unwrap();
    let m2 = parse_yaml("name: John Doe\nage: 30\n").unwrap();
    assert_eq!(m1, m2);
    let nested = parse_yaml("skills: [Rust, [1, 2], {a: true}, \"q\"]\n").unwrap();
    assert_eq!(
        nested,
        Value::Dict(vec![(
            String::from("skills"),
            Value::List(vec![
                Value::Str(String::from("Rust")),
                Value::List(vec![Value::Int(1), Value::Int(2)]),
                Value::Dict(vec![(String::from("a"), Value::Bool(true))]),
                Value::Str(String::from("q")),
            ]),
        )])
    );
    assert!(parse_yaml("a: [1, 2\n").is_err());
    assert!(parse_yaml("a: {x: 1,}\n").is_err());
}

#[test]
fn compact_sequence_mappings() {
    let v = parse_yaml("- key: value\n- other: 2\n").unwrap();
    assert_eq!(
        v,
        Value::List(vec![
            Value::Dict(vec![(String::from("key"), Value::Str(String::from("value")))]),
            Value::Dict(vec![(String::from("other"), Value::Int(2))]),
        ])
    );
}

#[test]
fn extended_string_escapes() {
    let v = parse_json("\"a\\u0041\\b\\f\\/\\t\"").unwrap();
    assert_eq!(v, Value::Str(String::from("aA\u{8}\u{c}/\t")));
    assert!(parse_json("\"\\uD800\"").is_err());
    assert!(parse_json("\"\\u12G4\"").is_err());
}

#[test]
fn suspicious_scalars_error_rather_than_becoming_text() {
    assert!(parse_yaml("a: 1.5\n").is_err());
    assert!(parse_yaml("a: -2e7\n").is_err());
    assert!(parse_yaml("a: &anchor\n").is_err());
    assert!(parse_yaml("a: *alias\n").is_err());
    assert!(parse_yaml("a: 'single'\n").is_err());
}

#[test]
fn empty_yaml_is_null() {
    assert_eq!(parse_yaml("").unwrap(), Value::Null);
    assert_eq!(parse_yaml("   \n# only a comment\n").unwrap(), Value::Null);
}

#[test]
fn non_string_keys_become_strings() {
    let v = parse_yaml("30: x\ntrue: y\n").unwrap();
    assert_eq!(
        v,
        Value::Dict(vec![
            (String::from("30"), Value::Str(String::from("x"))),
            (String::from("true"), Value::Str(String::from("y"))),
        ])
    );
    let out = encode_json(&v);
    assert!(out.contains("\"30\""));
}

#[test]
fn error_messages_name_the_violation() {
    let e = parse_json("{\"a\": 1, \"a\": 2}").unwrap_err();
    assert_eq!(e.message(), "duplicate mapping key");
    let e2 = parse_json("[1, 2").unwrap_err();
    assert_eq!(e2.message(), "unexpected end of input");
}
