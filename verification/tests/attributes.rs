use bytes::BytesMut;
use senax_encoder::attribute::{
    get_field_attributes, has_default_attribute, named_field, parse_attribute, positional_field,
    variant, AttributeToken,
};
use senax_encoder::derive::{derive_decode, derive_encode};
use senax_encoder::error::{EncoderError, StructDecodeError};
use senax_encoder::model::{EnumDef, FieldDef, Fields, Shape, StructDef, Value, VariantDef};
use senax_encoder::schema::calculate_id_from_name;
use senax_encoder::tag::{TAG_ENUM_UNNAMED, TAG_STRING_BASE, TAG_STRUCT_NAMED};

fn ident(name: &str) -> AttributeToken {
    AttributeToken::Ident(name.to_string())
}

/// The tokens of `#[senax(...)]` arguments, written as items: `id=N`,
/// `rename=name`, or a flag.
fn senax(items: &[&str]) -> Vec<Vec<AttributeToken>> {
    let mut tokens = Vec::new();
    for (index, item) in items.iter().enumerate() {
        if index > 0 {
            tokens.push(AttributeToken::Comma);
        }
        if let Some(number) = item.strip_prefix("id=") {
            tokens.push(ident("id"));
            tokens.push(AttributeToken::Equals);
            tokens.push(AttributeToken::Integer(number.parse::<u64>().ok()));
        } else if let Some(name) = item.strip_prefix("rename=") {
            tokens.push(ident("rename"));
            tokens.push(AttributeToken::Equals);
            tokens.push(AttributeToken::Text(name.to_string()));
        } else {
            tokens.push(ident(item));
        }
    }
    vec![tokens]
}

fn field(name: &str, type_text: &str, shape: Shape, items: &[&str]) -> FieldDef {
    if items.is_empty() {
        named_field(name, type_text, shape, &Vec::new())
    } else {
        named_field(name, type_text, shape, &senax(items))
    }
}

fn named_struct(name: &str, fields: Vec<FieldDef>) -> Shape {
    Shape::Struct(Box::new(StructDef {
        name: name.to_string(),
        fields: Fields::Named(fields),
        disable_encode: false,
        disable_pack: false,
    }))
}

fn enumeration(name: &str, variants: Vec<VariantDef>) -> Shape {
    Shape::Enum(Box::new(EnumDef {
        name: name.to_string(),
        variants,
        disable_encode: false,
        disable_pack: false,
    }))
}

fn positional(shapes: Vec<(&str, Shape)>) -> Fields {
    let mut fields = Vec::new();
    for (index, (type_text, shape)) in shapes.into_iter().enumerate() {
        fields.push(positional_field(index, type_text, shape));
    }
    Fields::Unnamed(fields)
}

fn optional(shape: Shape) -> Shape {
    Shape::Optional(Box::new(shape))
}

fn text(s: &str) -> Value {
    Value::Text(s.to_string())
}

fn float64(v: f64) -> Value {
    Value::F64(v.to_bits())
}

fn some(value: Value) -> Value {
    Value::Maybe(Some(Box::new(value)))
}

fn fields_of(value: Value) -> Vec<Value> {
    match value {
        Value::Record(items) => items,
        Value::Variant(_, items) => items,
        other => panic!("not a struct or variant: {:?}", other),
    }
}

fn transfer(writing: &Shape, value: &Value, reading: &Shape) -> Result<Value, EncoderError> {
    let mut buffer = BytesMut::new();
    derive_encode(writing, value, &mut buffer).unwrap();
    let mut reader = buffer.freeze();
    derive_decode(reading, &mut reader)
}

fn original_struct() -> Shape {
    named_struct(
        "OriginalStruct",
        vec![
            field("old_field", "i32", Shape::I32, &["id=1"]),
            field("another_field", "String", Shape::Text, &["id=2"]),
        ],
    )
}

fn extended_struct() -> Shape {
    named_struct(
        "ExtendedStruct",
        vec![
            field("old_field", "i32", Shape::I32, &["id=1"]),
            field("another_field", "String", Shape::Text, &["id=2"]),
            field("new_field", "i32", Shape::I32, &["id=3", "default"]),
            field(
                "new_optional_field",
                "Option < String >",
                optional(Shape::Text),
                &["id=4", "default"],
            ),
        ],
    )
}

#[test]
fn test_default_attribute_backward_compatibility() {
    let original = Value::Record(vec![Value::Signed(42), text("hello")]);
    let extended = fields_of(transfer(&original_struct(), &original, &extended_struct()).unwrap());
    assert_eq!(extended[0], Value::Signed(42));
    assert_eq!(extended[1], text("hello"));
    assert_eq!(extended[2], Value::Signed(0));
    assert_eq!(extended[3], Value::Maybe(None));
}

#[test]
fn test_default_attribute_forward_compatibility() {
    let extended =
        Value::Record(vec![Value::Signed(100), text("world"), Value::Signed(999), some(text("test"))]);
    let original = fields_of(transfer(&extended_struct(), &extended, &original_struct()).unwrap());
    assert_eq!(original[0], Value::Signed(100));
    assert_eq!(original[1], text("world"));
}

#[test]
fn test_skip_encode_attribute() {
    let shape = named_struct(
        "StructWithSkipEncode",
        vec![
            field("normal_field", "i32", Shape::I32, &["id=1"]),
            field("another_normal_field", "String", Shape::Text, &["id=2"]),
            field("skip_encode_field", "f64", Shape::F64, &["skip_encode", "default"]),
            field("last_field", "bool", Shape::Bool, &["id=3"]),
        ],
    );
    let original =
        Value::Record(vec![Value::Signed(42), text("test"), float64(3.14), Value::Bool(true)]);
    let decoded = fields_of(transfer(&shape, &original, &shape).unwrap());
    assert_eq!(decoded[0], Value::Signed(42));
    assert_eq!(decoded[1], text("test"));
    assert_eq!(decoded[2], float64(0.0));
    assert_eq!(decoded[3], Value::Bool(true));
}

#[test]
fn test_skip_encode_with_option() {
    let shape = named_struct(
        "StructWithSkipEncodeOption",
        vec![
            field("normal_field", "i32", Shape::I32, &["id=1"]),
            field(
                "skip_encode_optional",
                "Option < String >",
                optional(Shape::Text),
                &["skip_encode"],
            ),
            field("last_field", "bool", Shape::Bool, &["id=2"]),
        ],
    );
    let original = Value::Record(vec![
        Value::Signed(42),
        some(text("this will not be encoded")),
        Value::Bool(true),
    ]);
    let decoded = fields_of(transfer(&shape, &original, &shape).unwrap());
    assert_eq!(decoded[0], Value::Signed(42));
    assert_eq!(decoded[1], Value::Maybe(None));
    assert_eq!(decoded[2], Value::Bool(true));
}

#[test]
fn test_skip_decode_attribute() {
    let with_skip = named_struct(
        "StructWithSkipDecode",
        vec![
            field("normal_field", "i32", Shape::I32, &["id=1"]),
            field("skip_decode_field", "String", Shape::Text, &["id=2", "skip_decode"]),
            field("last_field", "bool", Shape::Bool, &["id=3"]),
        ],
    );
    let compatible = named_struct(
        "CompatibleStruct",
        vec![
            field("normal_field", "i32", Shape::I32, &["id=1"]),
            field("old_field", "String", Shape::Text, &["id=2"]),
            field("last_field", "bool", Shape::Bool, &["id=3"]),
        ],
    );
    let value =
        Value::Record(vec![Value::Signed(42), text("this will be ignored"), Value::Bool(true)]);
    let decoded = fields_of(transfer(&compatible, &value, &with_skip).unwrap());
    assert_eq!(decoded[0], Value::Signed(42));
    assert_eq!(decoded[1], text(""));
    assert_eq!(decoded[2], Value::Bool(true));
}

#[test]
fn test_multiple_attributes_combination() {
    let shape = named_struct(
        "ComplexAttributeStruct",
        vec![
            field("normal_field", "i32", Shape::I32, &["id=1"]),
            field("default_field", "String", Shape::Text, &["id=2", "default"]),
            field("skip_encode_field", "f64", Shape::F64, &["skip_encode", "default"]),
            field(
                "skip_decode_with_default",
                "Vec < u8 >",
                Shape::Vector(Box::new(Shape::U8)),
                &["id=3", "skip_decode", "default"],
            ),
            field("last_normal_field", "bool", Shape::Bool, &["id=4"]),
        ],
    );
    let original = Value::Record(vec![
        Value::Signed(100),
        text("custom"),
        float64(123.456),
        Value::Blob(vec![7, 8, 9]),
        Value::Bool(true),
    ]);
    let decoded = fields_of(transfer(&shape, &original, &shape).unwrap());
    assert_eq!(decoded[0], Value::Signed(100));
    assert_eq!(decoded[1], text("custom"));
    assert_eq!(decoded[2], float64(0.0));
    assert_eq!(decoded[3], Value::Blob(Vec::new()));
    assert_eq!(decoded[4], Value::Bool(true));
}

#[test]
fn test_enum_with_attributes() {
    let shape = enumeration(
        "EnumWithAttributes",
        vec![
            variant(
                "VariantA",
                &senax(&["id=1"]),
                false,
                Fields::Named(vec![
                    field("normal_field", "i32", Shape::I32, &["id=1"]),
                    field("default_field", "String", Shape::Text, &["id=2", "default"]),
                    field("_skip_encode_field", "f64", Shape::F64, &["skip_encode", "default"]),
                ]),
            ),
            variant(
                "VariantB",
                &senax(&["id=2"]),
                false,
                positional(vec![("i32", Shape::I32), ("String", Shape::Text)]),
            ),
            variant("VariantC", &senax(&["id=3"]), false, Fields::Unit),
        ],
    );
    let original = Value::Variant(0, vec![Value::Signed(42), text("test"), float64(3.14)]);
    let decoded = transfer(&shape, &original, &shape).unwrap();
    match decoded {
        Value::Variant(0, items) => {
            assert_eq!(items[0], Value::Signed(42));
            assert_eq!(items[1], text("test"));
        }
        _ => panic!("Unexpected variant"),
    }
}

#[test]
fn test_missing_required_field_error() {
    let required = named_struct(
        "RequiredFieldStruct",
        vec![
            field("required_field", "i32", Shape::I32, &["id=1"]),
            field("another_required", "String", Shape::Text, &["id=2"]),
        ],
    );
    let missing = named_struct(
        "MissingRequiredStruct",
        vec![
            field("required_field", "i32", Shape::I32, &["id=1"]),
            field("optional_field", "String", Shape::Text, &["id=3", "default"]),
        ],
    );
    let value = Value::Record(vec![Value::Signed(42), text("test")]);
    let result = transfer(&missing, &value, &required);
    assert!(result.is_err());
    let error = result.unwrap_err();
    let error_msg = error.to_string();
    assert!(error_msg.contains("Required field"));
    assert_eq!(
        error_msg,
        "Required field 'another_required' not found for struct RequiredFieldStruct"
    );
    assert!(matches!(
        error,
        EncoderError::StructDecode(StructDecodeError::MissingRequiredField { .. })
    ));
}

#[test]
fn test_option_field_with_default() {
    let full = named_struct(
        "StructWithOptionDefault",
        vec![
            field("normal_field", "i32", Shape::I32, &["id=1"]),
            field(
                "optional_with_default",
                "Option < String >",
                optional(Shape::Text),
                &["id=2", "default"],
            ),
            field("regular_optional", "Option < i32 >", optional(Shape::I32), &["id=3"]),
        ],
    );
    let partial = named_struct(
        "PartialStruct",
        vec![
            field("normal_field", "i32", Shape::I32, &["id=1"]),
            field("regular_optional", "Option < i32 >", optional(Shape::I32), &["id=3"]),
        ],
    );
    let value = Value::Record(vec![Value::Signed(42), Value::Maybe(None)]);
    let decoded = fields_of(transfer(&partial, &value, &full).unwrap());
    assert_eq!(decoded[0], Value::Signed(42));
    assert_eq!(decoded[1], Value::Maybe(None));
    assert_eq!(decoded[2], Value::Maybe(None));
}

#[test]
fn test_custom_id_with_attributes() {
    let shape = named_struct(
        "CustomIdWithAttributes",
        vec![
            field("field_a", "i32", Shape::I32, &["id=4096"]),
            field("field_b", "String", Shape::Text, &["id=8192", "default"]),
            field("field_c", "f64", Shape::F64, &["id=12288", "skip_encode", "default"]),
            field("field_d", "bool", Shape::Bool, &["id=16384", "skip_decode"]),
        ],
    );
    let original =
        Value::Record(vec![Value::Signed(123), text("custom"), float64(456.789), Value::Bool(true)]);
    let decoded = fields_of(transfer(&shape, &original, &shape).unwrap());
    assert_eq!(decoded[0], Value::Signed(123));
    assert_eq!(decoded[1], text("custom"));
    assert_eq!(decoded[2], float64(0.0));
    assert_eq!(decoded[3], Value::Bool(false));
}

fn original_with_rename() -> Shape {
    named_struct(
        "OriginalWithRename",
        vec![
            field("new_field_name", "i32", Shape::I32, &["rename=old_name"]),
            field("another_field", "String", Shape::Text, &["id=2"]),
        ],
    )
}

fn compatible_with_old_name() -> Shape {
    named_struct(
        "CompatibleWithOldName",
        vec![
            field("field_with_explicit_id", "i32", Shape::I32, &["id=1", "rename=old_name"]),
            field("another_field", "String", Shape::Text, &["id=2"]),
        ],
    )
}

fn legacy_struct() -> Shape {
    named_struct(
        "LegacyStruct",
        vec![
            field("old_name", "i32", Shape::I32, &[]),
            field("another_field", "String", Shape::Text, &["id=2"]),
        ],
    )
}

#[test]
fn test_rename_attribute_compatibility() {
    let value = Value::Record(vec![Value::Signed(42), text("test")]);
    let legacy = fields_of(transfer(&original_with_rename(), &value, &legacy_struct()).unwrap());
    assert_eq!(legacy[0], Value::Signed(42));
    assert_eq!(legacy[1], text("test"));
}

#[test]
fn test_rename_with_explicit_id() {
    let different = named_struct(
        "DifferentNameStruct",
        vec![
            field("different_name", "i32", Shape::I32, &["id=1"]),
            field("another_field", "String", Shape::Text, &["id=2"]),
        ],
    );
    let original = Value::Record(vec![Value::Signed(42), text("test")]);
    let decoded = fields_of(transfer(&different, &original, &compatible_with_old_name()).unwrap());
    assert_eq!(decoded[0], Value::Signed(42));
    assert_eq!(decoded[1], text("test"));

    let compat = Value::Record(vec![Value::Signed(99), text("reverse")]);
    let decoded2 = fields_of(transfer(&compatible_with_old_name(), &compat, &different).unwrap());
    assert_eq!(decoded2[0], Value::Signed(99));
    assert_eq!(decoded2[1], text("reverse"));
}

#[test]
fn test_enum_rename_compatibility() {
    let renamed = enumeration(
        "EnumWithRename",
        vec![
            variant(
                "NewVariantName",
                &senax(&["rename=OldVariantName"]),
                false,
                Fields::Named(vec![
                    field("new_field", "i32", Shape::I32, &["rename=old_field"]),
                    field("stable_field", "String", Shape::Text, &["id=2"]),
                ]),
            ),
            variant("AnotherVariant", &senax(&["id=100"]), false, Fields::Unit),
        ],
    );
    let legacy = enumeration(
        "LegacyEnum",
        vec![
            variant(
                "OldVariantName",
                &Vec::new(),
                false,
                Fields::Named(vec![
                    field("old_field", "i32", Shape::I32, &[]),
                    field("stable_field", "String", Shape::Text, &["id=2"]),
                ]),
            ),
            variant("AnotherVariant", &senax(&["id=100"]), false, Fields::Unit),
        ],
    );
    let value = Value::Variant(0, vec![Value::Signed(123), text("stable")]);
    match transfer(&renamed, &value, &legacy).unwrap() {
        Value::Variant(0, items) => {
            assert_eq!(items[0], Value::Signed(123));
            assert_eq!(items[1], text("stable"));
        }
        _ => panic!("Unexpected variant"),
    }
}

#[test]
fn test_rename_with_default() {
    let modern = named_struct(
        "RenameWithDefault",
        vec![
            field("modern_field", "String", Shape::Text, &["rename=legacy_field", "default"]),
            field("normal_field", "i32", Shape::I32, &["id=2"]),
        ],
    );
    let partial =
        named_struct("PartialLegacy", vec![field("normal_field", "i32", Shape::I32, &["id=2"])]);
    let value = Value::Record(vec![Value::Signed(42)]);
    let decoded = fields_of(transfer(&partial, &value, &modern).unwrap());
    assert_eq!(decoded[0], text(""));
    assert_eq!(decoded[1], Value::Signed(42));
}

#[test]
fn test_struct_with_u8_id() {
    let shape = named_struct(
        "U8IdStruct",
        vec![
            field("a", "i32", Shape::I32, &["id=1"]),
            field("b", "String", Shape::Text, &["id=2"]),
        ],
    );
    let value = Value::Record(vec![Value::Signed(42), text("abc")]);
    let mut buf = BytesMut::new();
    derive_encode(&shape, &value, &mut buf).unwrap();
    let bytes = buf.freeze();

    assert_eq!(bytes[0], TAG_STRUCT_NAMED);
    assert_eq!(bytes[1], 1);
    assert_eq!(bytes[3], 2);
    assert_eq!(bytes[4], TAG_STRING_BASE + 3);
    assert_eq!(bytes[bytes.len() - 1], 0);

    let mut reader = bytes.clone();
    let decoded = derive_decode(&shape, &mut reader).unwrap();
    assert_eq!(decoded, value);
}

#[test]
fn test_enum_with_u8_id() {
    let shape = enumeration(
        "U8IdEnum",
        vec![
            variant("A", &senax(&["id=1"]), false, positional(vec![("i32", Shape::I32)])),
            variant("B", &senax(&["id=2"]), false, positional(vec![("String", Shape::Text)])),
        ],
    );
    let value = Value::Variant(0, vec![Value::Signed(123)]);
    let mut buf = BytesMut::new();
    derive_encode(&shape, &value, &mut buf).unwrap();
    let bytes = buf.freeze();
    assert_eq!(bytes[0], TAG_ENUM_UNNAMED);
    assert_eq!(bytes[1], 1);

    let mut reader = bytes.clone();
    let decoded = derive_decode(&shape, &mut reader).unwrap();
    assert_eq!(decoded, value);
}

#[test]
fn test_rename_only_behavior() {
    let renamed = named_struct(
        "WithRenameOnly",
        vec![
            field("renamed_field", "i32", Shape::I32, &["rename=original_field"]),
            field("other_field", "String", Shape::Text, &["id=100"]),
        ],
    );
    let original = named_struct(
        "OriginalFieldStruct",
        vec![
            field("original_field", "i32", Shape::I32, &[]),
            field("other_field", "String", Shape::Text, &["id=100"]),
        ],
    );
    let value = Value::Record(vec![Value::Signed(123), text("compatible")]);
    let decoded = fields_of(transfer(&original, &value, &renamed).unwrap());
    assert_eq!(decoded[0], Value::Signed(123));
    assert_eq!(decoded[1], text("compatible"));

    let renamed_value = Value::Record(vec![Value::Signed(456), text("reverse")]);
    let decoded2 = fields_of(transfer(&renamed, &renamed_value, &original).unwrap());
    assert_eq!(decoded2[0], Value::Signed(456));
    assert_eq!(decoded2[1], text("reverse"));
}

#[test]
fn attribute_grammar_accepts_items_with_and_without_commas() {
    let tokens = vec![
        ident("id"),
        AttributeToken::Equals,
        AttributeToken::Integer(Some(7)),
        AttributeToken::Comma,
        ident("default"),
        ident("skip_encode"),
        AttributeToken::Comma,
        ident("rename"),
        AttributeToken::Equals,
        AttributeToken::Text("old".to_string()),
        AttributeToken::Comma,
    ];
    let parsed = parse_attribute(&tokens).unwrap();
    assert_eq!(parsed.id, Some(7));
    assert!(parsed.default);
    assert!(parsed.skip_encode);
    assert!(!parsed.skip_decode);
    assert!(!parsed.skip_default);
    assert_eq!(parsed.rename, Some("old".to_string()));
}

#[test]
fn attribute_grammar_rejects_malformed_arguments() {
    assert!(parse_attribute(&vec![ident("unknown")]).is_none());
    assert!(parse_attribute(&vec![ident("id")]).is_none());
    assert!(parse_attribute(&vec![ident("id"), AttributeToken::Equals]).is_none());
    assert!(parse_attribute(&vec![
        ident("id"),
        AttributeToken::Equals,
        AttributeToken::Integer(Some(0))
    ])
    .is_none());
    assert!(parse_attribute(&vec![
        ident("id"),
        AttributeToken::Equals,
        AttributeToken::Integer(None)
    ])
    .is_none());
    assert!(parse_attribute(&vec![
        ident("rename"),
        AttributeToken::Equals,
        AttributeToken::Integer(Some(3))
    ])
    .is_none());
    assert!(parse_attribute(&vec![AttributeToken::Comma]).is_none());
    assert!(parse_attribute(&vec![AttributeToken::Other]).is_none());
    assert!(parse_attribute(&Vec::new()).is_some());
}

#[test]
fn malformed_attribute_is_passed_over() {
    let attrs = vec![
        vec![ident("default")],
        vec![ident("id"), AttributeToken::Equals, AttributeToken::Integer(Some(0))],
        vec![ident("skip_default")],
    ];
    let policy = get_field_attributes(&attrs, "name");
    assert!(policy.default);
    assert!(policy.skip_default);
    assert!(!policy.skip_encode);
    assert_eq!(policy.id, calculate_id_from_name("name"));
}

#[test]
fn identifier_comes_from_id_then_rename_then_name() {
    let with_all = get_field_attributes(&senax(&["id=77", "rename=other"]), "name");
    assert_eq!(with_all.id, 77);
    assert_eq!(with_all.rename, Some("other".to_string()));
    let with_rename = get_field_attributes(&senax(&["rename=other"]), "name");
    assert_eq!(with_rename.id, calculate_id_from_name("other"));
    let plain = get_field_attributes(&Vec::new(), "name");
    assert_eq!(plain.id, calculate_id_from_name("name"));
    assert_ne!(calculate_id_from_name("name"), calculate_id_from_name("other"));
}

#[test]
fn identifier_of_a_name_is_its_crc64() {
    assert_eq!(calculate_id_from_name("123456789"), 0x6C40DF5F0B497347);
    assert_eq!(calculate_id_from_name(""), u64::MAX);
}

#[test]
fn default_attribute_is_found_by_name() {
    assert!(has_default_attribute(&vec!["senax".to_string(), "default".to_string()]));
    assert!(!has_default_attribute(&vec!["senax".to_string()]));
    assert!(!has_default_attribute(&Vec::new()));
}
