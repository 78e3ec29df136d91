use bytes::{Bytes, BytesMut};
use senax_encoder::attribute::named_field;
use senax_encoder::derive::{decode_value, derive_decode, derive_encode, encode_value};
use senax_encoder::error::EncoderError;
use senax_encoder::json::{read_json, write_json, JsonNumber, JsonValue};
use senax_encoder::model::{Fields, Shape, StructDef, Value};
use senax_encoder::skip::skip_value;
use serde_json::Number;

fn to_tree(value: &serde_json::Value) -> JsonValue {
    match value {
        serde_json::Value::Null => JsonValue::Null,
        serde_json::Value::Bool(b) => JsonValue::Bool(*b),
        serde_json::Value::Number(n) => {
            if let Some(u) = n.as_u64() {
                JsonValue::Number(JsonNumber::Unsigned(u))
            } else if let Some(i) = n.as_i64() {
                JsonValue::Number(JsonNumber::Signed(i))
            } else {
                JsonValue::Number(JsonNumber::Float(n.as_f64().unwrap_or(0.0).to_bits()))
            }
        }
        serde_json::Value::String(s) => JsonValue::Text(s.clone()),
        serde_json::Value::Array(items) => JsonValue::Array(items.iter().map(to_tree).collect()),
        serde_json::Value::Object(entries) => {
            JsonValue::Object(entries.iter().map(|(k, v)| (k.clone(), to_tree(v))).collect())
        }
    }
}

fn from_tree(tree: &JsonValue) -> serde_json::Value {
    match tree {
        JsonValue::Null => serde_json::Value::Null,
        JsonValue::Bool(b) => serde_json::Value::Bool(*b),
        JsonValue::Number(JsonNumber::Unsigned(u)) => serde_json::Value::Number(Number::from(*u)),
        JsonValue::Number(JsonNumber::Signed(i)) => serde_json::Value::Number(Number::from(*i)),
        JsonValue::Number(JsonNumber::Float(bits)) => serde_json::Value::Number(
            Number::from_f64(f64::from_bits(*bits)).unwrap_or(Number::from(0)),
        ),
        JsonValue::Text(s) => serde_json::Value::String(s.clone()),
        JsonValue::Array(items) => serde_json::Value::Array(items.iter().map(from_tree).collect()),
        JsonValue::Object(entries) => {
            let mut map = serde_json::Map::with_capacity(entries.len());
            for (key, value) in entries {
                map.insert(key.clone(), from_tree(value));
            }
            serde_json::Value::Object(map)
        }
    }
}

fn parse(source: &str) -> serde_json::Value {
    serde_json::from_str(source).unwrap()
}

fn roundtrip(original: &serde_json::Value) -> serde_json::Value {
    let mut buffer = BytesMut::new();
    write_json(&to_tree(original), &mut buffer);
    let mut reader = buffer.freeze();
    let decoded = read_json(&mut reader).unwrap();
    assert_eq!(reader.len(), 0);
    from_tree(&decoded)
}

#[test]
fn test_serde_json_value_encode() {
    let test_values: Vec<serde_json::Value> = vec![
        serde_json::Value::Null,
        serde_json::Value::Bool(true),
        serde_json::Value::Bool(false),
        parse("42"),
        parse("3.14159"),
        parse("\"hello world\""),
        parse("[1, 2, 3, \"four\", null]"),
        parse(
            "{\"name\": \"Alice\", \"age\": 30, \"active\": true, \"balance\": 123.45, \
             \"tags\": [\"user\", \"premium\"], \"metadata\": {\"last_login\": \"2024-01-01\", \
             \"preferences\": {\"theme\": \"dark\", \"notifications\": true}}}",
        ),
    ];
    for original in &test_values {
        assert_eq!(original, &roundtrip(original), "Failed roundtrip for JSON Value: {}", original);
    }
}

#[test]
fn test_serde_json_value_complex() {
    let complex_json = parse(
        "{\"users\": [{\"id\": 1, \"name\": \"Alice\", \"profile\": {\"email\": \
         \"alice@example.com\", \"verified\": true, \"scores\": [95.5, 87.2, 91.0]}}, {\"id\": 2, \
         \"name\": \"Bob\", \"profile\": {\"email\": \"bob@example.com\", \"verified\": false, \
         \"scores\": null}}], \"metadata\": {\"total\": 2, \"last_updated\": \
         \"2024-01-01T00:00:00Z\", \"features\": {\"advanced_search\": true, \"notifications\": \
         false}}}",
    );
    assert_eq!(complex_json, roundtrip(&complex_json));
}

#[test]
fn test_serde_json_value_in_struct() {
    let shape = Shape::Struct(Box::new(StructDef {
        name: "ConfigStruct".to_string(),
        fields: Fields::Named(vec![
            named_field("name", "String", Shape::Text, &Vec::new()),
            named_field("config", "Value", Shape::Json, &Vec::new()),
            named_field("enabled", "bool", Shape::Bool, &Vec::new()),
        ]),
        disable_encode: false,
        disable_pack: false,
    }));
    let config = parse(
        "{\"database\": {\"host\": \"localhost\", \"port\": 5432, \"ssl\": true}, \"cache\": \
         {\"ttl\": 3600, \"enabled\": true}, \"features\": [\"analytics\", \"auth\", \
         \"notifications\"]}",
    );
    let original = Value::Record(vec![
        Value::Text("app_config".to_string()),
        Value::Json(to_tree(&config)),
        Value::Bool(true),
    ]);
    let mut buffer = BytesMut::new();
    derive_encode(&shape, &original, &mut buffer).unwrap();
    let mut reader = buffer.freeze();
    let decoded = derive_decode(&shape, &mut reader).unwrap();
    assert_eq!(original, decoded);
    match decoded {
        Value::Record(fields) => match &fields[1] {
            Value::Json(tree) => assert_eq!(from_tree(tree), config),
            _ => panic!("not a tree"),
        },
        _ => panic!("not a struct"),
    }
}

#[test]
fn test_serde_json_value_empty_containers() {
    let test_values: Vec<serde_json::Value> = vec![
        parse("[]"),
        parse("{}"),
        parse("{\"empty_array\": [], \"empty_object\": {}, \"nested\": {\"also_empty\": []}}"),
    ];
    for original in &test_values {
        assert_eq!(original, &roundtrip(original));
    }
}

#[test]
fn json_numbers_keep_their_kind() {
    let mut buffer = BytesMut::new();
    write_json(&JsonValue::Number(JsonNumber::Unsigned(300)), &mut buffer);
    assert_eq!(buffer.as_ref(), &[204, 0, 131, 172]);
    let mut buffer = BytesMut::new();
    write_json(&JsonValue::Number(JsonNumber::Signed(-5)), &mut buffer);
    assert_eq!(buffer.as_ref(), &[204, 1, 136, 4]);
    let mut buffer = BytesMut::new();
    write_json(&JsonValue::Number(JsonNumber::Float(2.5f64.to_bits())), &mut buffer);
    let mut expected = vec![204, 2, 138];
    expected.extend_from_slice(&2.5f64.to_le_bytes());
    assert_eq!(buffer.as_ref(), &expected[..]);
    let mut reader = buffer.freeze();
    assert_eq!(
        read_json(&mut reader).unwrap(),
        JsonValue::Number(JsonNumber::Float(2.5f64.to_bits()))
    );
}

#[test]
fn json_wire_is_tag_then_parts() {
    let tree = JsonValue::Object(vec![
        ("a".to_string(), JsonValue::Bool(true)),
        ("b".to_string(), JsonValue::Array(vec![JsonValue::Null, JsonValue::Text("x".to_string())])),
    ]);
    let mut buffer = BytesMut::new();
    write_json(&tree, &mut buffer);
    assert_eq!(
        buffer.as_ref(),
        &[207, 2, 140, b'a', 203, 1, 140, b'b', 206, 2, 202, 205, 140, b'x']
    );
}

#[test]
fn json_trees_can_be_skipped() {
    let tree = to_tree(&parse(
        "{\"k\": [1, -2, 3.5, \"s\", null, true, {\"deep\": [[], {}]}], \"n\": 18446744073709551615}",
    ));
    let mut buffer = BytesMut::new();
    write_json(&tree, &mut buffer);
    let written = buffer.len();
    buffer.extend_from_slice(&[7, 8, 9]);
    let mut reader = buffer.freeze();
    skip_value(&mut reader).unwrap();
    assert_eq!(reader.as_ref(), &[7, 8, 9]);
    assert!(written > 20);
}

#[test]
fn json_reader_reports_bad_input() {
    let mut reader = Bytes::from_static(&[]);
    assert!(matches!(read_json(&mut reader), Err(EncoderError::InsufficientData)));
    let mut reader = Bytes::from_static(&[201]);
    assert!(matches!(read_json(&mut reader), Err(EncoderError::Decode(_))));
    let mut reader = Bytes::from_static(&[204, 3, 0]);
    assert!(matches!(read_json(&mut reader), Err(EncoderError::Decode(_))));
    let mut reader = Bytes::from_static(&[204]);
    assert!(matches!(read_json(&mut reader), Err(EncoderError::InsufficientData)));
    let mut reader = Bytes::from_static(&[206, 2, 202]);
    assert!(matches!(read_json(&mut reader), Err(EncoderError::InsufficientData)));
    let mut reader = Bytes::from_static(&[203, 2]);
    assert!(matches!(read_json(&mut reader), Err(EncoderError::Decode(_))));
    let mut reader = Bytes::from_static(&[205, 141, 0xFF, 0xFE]);
    assert!(matches!(read_json(&mut reader), Err(EncoderError::Decode(_))));
}

#[test]
fn json_value_has_a_shape_and_a_default() {
    let tree = Value::Json(JsonValue::Array(vec![JsonValue::Number(JsonNumber::Unsigned(1))]));
    let mut buffer = BytesMut::new();
    encode_value(&Shape::Json, &tree, &mut buffer).unwrap();
    let mut reader = buffer.freeze();
    assert_eq!(decode_value(&Shape::Json, &mut reader).unwrap(), tree);
    let mut buffer = BytesMut::new();
    assert!(encode_value(&Shape::Text, &tree, &mut buffer).is_err());
    assert!(senax_encoder::value::is_default_value(&Shape::Json, &Value::Json(JsonValue::Null)));
    assert!(!senax_encoder::value::is_default_value(&Shape::Json, &tree));
    assert_eq!(senax_encoder::value::zero_value(&Shape::Json), Value::Json(JsonValue::Null));
}
