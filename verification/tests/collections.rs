use bytes::{Bytes, BytesMut};
use chrono::{DateTime, Local, NaiveDate, NaiveTime, TimeDelta, Timelike, Utc};
use rust_decimal::Decimal;
use senax_encoder::attribute::{named_field, positional_field, variant, AttributeToken};
use senax_encoder::codec::{Decoder, Encoder, Float64};
use senax_encoder::derive::{decode_value, derive_decode, derive_encode, encode_value};
use senax_encoder::error::EncoderError;
use senax_encoder::model::{EnumDef, FieldDef, Fields, Shape, StructDef, Value, VariantDef};
use senax_encoder::value::{is_default_value, zero_value};
use std::collections::{BTreeMap, BTreeSet, HashMap, HashSet};
use std::str::FromStr;
use std::sync::Arc;
use ulid::Ulid;
use uuid::Uuid;

fn field(name: &str, type_text: &str, shape: Shape) -> FieldDef {
    named_field(name, type_text, shape, &Vec::new())
}

fn flagged(name: &str, type_text: &str, shape: Shape, flag: &str) -> FieldDef {
    named_field(name, type_text, shape, &vec![vec![AttributeToken::Ident(flag.to_string())]])
}

fn named_struct(name: &str, fields: Vec<FieldDef>) -> Shape {
    Shape::Struct(Box::new(StructDef {
        name: name.to_string(),
        fields: Fields::Named(fields),
        disable_encode: false,
        disable_pack: false,
    }))
}

fn positional(shapes: Vec<(&str, Shape)>) -> Fields {
    let mut fields = Vec::new();
    for (index, (type_text, shape)) in shapes.into_iter().enumerate() {
        fields.push(positional_field(index, type_text, shape));
    }
    Fields::Unnamed(fields)
}

fn tuple_struct(name: &str, shapes: Vec<(&str, Shape)>) -> Shape {
    Shape::Struct(Box::new(StructDef {
        name: name.to_string(),
        fields: positional(shapes),
        disable_encode: false,
        disable_pack: false,
    }))
}

fn enumeration(name: &str, variants: Vec<VariantDef>) -> Shape {
    Shape::Enum(Box::new(EnumDef {
        name: name.to_string(),
        variants,
        disable_encode: false,
        disable_pack: false,
    }))
}

fn plain_variant(name: &str, fields: Fields) -> VariantDef {
    variant(name, &Vec::new(), false, fields)
}

fn default_variant(name: &str, fields: Fields) -> VariantDef {
    variant(name, &Vec::new(), true, fields)
}

fn optional(shape: Shape) -> Shape {
    Shape::Optional(Box::new(shape))
}

fn vector(shape: Shape) -> Shape {
    Shape::Vector(Box::new(shape))
}

fn mapping(key: Shape, value: Shape) -> Shape {
    Shape::Mapping(Box::new(key), Box::new(value))
}

fn text(s: &str) -> Value {
    Value::Text(s.to_string())
}

fn float64(v: f64) -> Value {
    Value::F64(v.to_bits())
}

fn some(value: Value) -> Value {
    Value::Maybe(Some(Box::new(value)))
}

fn none() -> Value {
    Value::Maybe(None)
}

fn signed(v: i64) -> Value {
    Value::Signed(v as i128)
}

fn unsigned(v: u64) -> Value {
    Value::Unsigned(v as u128)
}

fn texts(items: &[&str]) -> Value {
    Value::List(items.iter().map(|s| text(s)).collect())
}

fn encoded(shape: &Shape, value: &Value) -> Bytes {
    let mut buffer = BytesMut::new();
    encode_value(shape, value, &mut buffer).unwrap();
    buffer.freeze()
}

fn roundtrip(shape: &Shape, value: &Value) -> Value {
    let mut reader = encoded(shape, value);
    let decoded = decode_value(shape, &mut reader).unwrap();
    assert_eq!(reader.len(), 0);
    decoded
}

fn datetime_value(dt: &DateTime<Utc>) -> Value {
    Value::DateTime { seconds: dt.timestamp(), nanos: dt.timestamp_subsec_nanos() }
}

fn datetime_of(value: &Value) -> DateTime<Utc> {
    match value {
        Value::DateTime { seconds, nanos } => DateTime::from_timestamp(*seconds, *nanos).unwrap(),
        other => panic!("not a point in time: {:?}", other),
    }
}

fn epoch() -> NaiveDate {
    NaiveDate::from_ymd_opt(1970, 1, 1).unwrap()
}

fn date_value(date: &NaiveDate) -> Value {
    Value::Date { days: date.signed_duration_since(epoch()).num_days() }
}

fn date_of(value: &Value) -> NaiveDate {
    match value {
        Value::Date { days } => {
            epoch().checked_add_signed(TimeDelta::try_days(*days).unwrap()).unwrap()
        }
        other => panic!("not a date: {:?}", other),
    }
}

fn time_value(time: &NaiveTime) -> Value {
    Value::Time { seconds: time.num_seconds_from_midnight(), nanos: time.nanosecond() }
}

fn time_of(value: &Value) -> NaiveTime {
    match value {
        Value::Time { seconds, nanos } => {
            NaiveTime::from_num_seconds_from_midnight_opt(*seconds, *nanos).unwrap()
        }
        other => panic!("not a time: {:?}", other),
    }
}

fn decimal_value(d: &Decimal) -> Value {
    Value::Decimal { mantissa: d.mantissa(), scale: d.scale() }
}

fn decimal_of(value: &Value) -> Decimal {
    match value {
        Value::Decimal { mantissa, scale } => {
            Decimal::try_from_i128_with_scale(*mantissa, *scale).unwrap()
        }
        other => panic!("not a decimal: {:?}", other),
    }
}

fn uuid_of(value: &Value) -> Uuid {
    match value {
        Value::Uuid(id) => Uuid::from_u128(*id),
        other => panic!("not an identifier: {:?}", other),
    }
}

fn ulid_of(value: &Value) -> Ulid {
    match value {
        Value::Uuid(id) => Ulid(*id),
        other => panic!("not an identifier: {:?}", other),
    }
}

#[test]
fn test_set_and_map_collections() {
    let mut hs = HashSet::new();
    hs.insert(10);
    hs.insert(20);
    hs.insert(30);
    let shape = vector(Shape::I32);
    let value = Value::List(hs.iter().map(|v| signed(*v)).collect());
    let hs2: HashSet<i64> = match roundtrip(&shape, &value) {
        Value::List(items) => items
            .iter()
            .map(|v| match v {
                Value::Signed(n) => *n as i64,
                _ => panic!("not a number"),
            })
            .collect(),
        _ => panic!("not a list"),
    };
    assert_eq!(hs, hs2);

    let mut bs = BTreeSet::new();
    bs.insert(100);
    bs.insert(200);
    let value = Value::List(bs.iter().map(|v| signed(*v)).collect());
    assert_eq!(roundtrip(&shape, &value), Value::List(vec![signed(100), signed(200)]));

    let mut is = indexmap::IndexSet::new();
    is.insert("a".to_string());
    is.insert("b".to_string());
    let value = Value::List(is.iter().map(|s| text(s)).collect());
    assert_eq!(roundtrip(&vector(Shape::Text), &value), texts(&["a", "b"]));

    let mut bm = BTreeMap::new();
    bm.insert(1, "one".to_string());
    bm.insert(2, "two".to_string());
    let shape = mapping(Shape::I32, Shape::Text);
    let value = Value::Pairs(bm.iter().map(|(k, v)| (signed(*k), text(v))).collect());
    let bm2: BTreeMap<i64, String> = match roundtrip(&shape, &value) {
        Value::Pairs(items) => items
            .into_iter()
            .map(|(k, v)| match (k, v) {
                (Value::Signed(k), Value::Text(v)) => (k as i64, v),
                _ => panic!("not an entry"),
            })
            .collect(),
        _ => panic!("not a mapping"),
    };
    assert_eq!(bm, bm2);

    let mut im = indexmap::IndexMap::new();
    im.insert("x".to_string(), 123);
    im.insert("y".to_string(), 456);
    let shape = mapping(Shape::Text, Shape::I32);
    let value = Value::Pairs(im.iter().map(|(k, v)| (text(k), signed(*v))).collect());
    assert_eq!(
        roundtrip(&shape, &value),
        Value::Pairs(vec![(text("x"), signed(123)), (text("y"), signed(456))])
    );
}

#[test]
fn test_chrono_datetime_utc() {
    let original = DateTime::from_timestamp(1640995200, 123456789).unwrap();
    let decoded = roundtrip(&Shape::DateTime, &datetime_value(&original));
    assert_eq!(original, datetime_of(&decoded));
}

#[test]
fn test_chrono_datetime_local() {
    let utc_dt = DateTime::from_timestamp(1640995200, 123456789).unwrap();
    let original = utc_dt.with_timezone(&Local);
    let value =
        Value::DateTime { seconds: original.timestamp(), nanos: original.timestamp_subsec_nanos() };
    let decoded = datetime_of(&roundtrip(&Shape::DateTime, &value)).with_timezone(&Local);
    assert_eq!(original.with_timezone(&Utc), decoded.with_timezone(&Utc));
}

#[test]
fn test_chrono_naive_date() {
    let original = NaiveDate::from_ymd_opt(2022, 1, 15).unwrap();
    let decoded = roundtrip(&Shape::Date, &date_value(&original));
    assert_eq!(original, date_of(&decoded));
}

#[test]
fn test_chrono_naive_time() {
    let original = NaiveTime::from_hms_nano_opt(14, 30, 45, 123456789).unwrap();
    let decoded = roundtrip(&Shape::Time, &time_value(&original));
    assert_eq!(original, time_of(&decoded));
}

#[test]
fn test_chrono_datetime_cross_timezone() {
    let utc_original = DateTime::from_timestamp(1640995200, 123456789).unwrap();
    let local_from_utc =
        datetime_of(&roundtrip(&Shape::DateTime, &datetime_value(&utc_original)))
            .with_timezone(&Local);
    assert_eq!(utc_original, local_from_utc.with_timezone(&Utc));

    let local_original = utc_original.with_timezone(&Local);
    let value = Value::DateTime {
        seconds: local_original.timestamp(),
        nanos: local_original.timestamp_subsec_nanos(),
    };
    let utc_from_local = datetime_of(&roundtrip(&Shape::DateTime, &value));
    assert_eq!(local_original.with_timezone(&Utc), utc_from_local);
}

#[test]
fn invalid_dates_and_times_are_refused() {
    let mut buffer = BytesMut::new();
    let bad_time = Value::Time { seconds: 86_400, nanos: 0 };
    assert!(matches!(
        encode_value(&Shape::Time, &bad_time, &mut buffer),
        Err(EncoderError::Encode(_))
    ));
    assert_eq!(buffer.len(), 0);
    let leap = Value::Time { seconds: 86_399, nanos: 1_999_999_999 };
    assert_eq!(roundtrip(&Shape::Time, &leap), leap);
    let not_leap = Value::Time { seconds: 86_398, nanos: 1_000_000_000 };
    assert!(encode_value(&Shape::Time, &not_leap, &mut buffer).is_err());

    let bad_datetime = Value::DateTime { seconds: i64::MAX, nanos: 0 };
    assert!(encode_value(&Shape::DateTime, &bad_datetime, &mut buffer).is_err());
    let bad_date = Value::Date { days: i64::MAX };
    assert!(encode_value(&Shape::Date, &bad_date, &mut buffer).is_err());
    let far_date = Value::Date { days: 1_000_000_000 };
    assert!(encode_value(&Shape::Date, &far_date, &mut buffer).is_err());
    let last = match date_value(&NaiveDate::MAX) {
        Value::Date { days } => days,
        other => panic!("not a date: {:?}", other),
    };
    let first = match date_value(&NaiveDate::MIN) {
        Value::Date { days } => days,
        other => panic!("not a date: {:?}", other),
    };
    assert_eq!(date_of(&roundtrip(&Shape::Date, &Value::Date { days: last })), NaiveDate::MAX);
    assert_eq!(date_of(&roundtrip(&Shape::Date, &Value::Date { days: first })), NaiveDate::MIN);
    assert!(encode_value(&Shape::Date, &Value::Date { days: last + 1 }, &mut buffer).is_err());
    assert!(encode_value(&Shape::Date, &Value::Date { days: first - 1 }, &mut buffer).is_err());
    let beyond = Value::Date { days: i32::MAX as i64 + 1 };
    assert!(encode_value(&Shape::Date, &beyond, &mut buffer).is_err());
    let bad_decimal = Value::Decimal { mantissa: 1, scale: 29 };
    assert!(encode_value(&Shape::Decimal, &bad_decimal, &mut buffer).is_err());
    let wide_decimal = Value::Decimal { mantissa: 1i128 << 96, scale: 0 };
    assert!(encode_value(&Shape::Decimal, &wide_decimal, &mut buffer).is_err());
    assert_eq!(buffer.len(), 0);

    let mut wire = Bytes::from_static(&[199, 133, 128, 81, 1, 0, 0]);
    assert!(matches!(decode_value(&Shape::Time, &mut wire), Err(EncoderError::Decode(_))));
    let mut wire = Bytes::from_static(&[200, 1, 29]);
    assert!(matches!(decode_value(&Shape::Decimal, &mut wire), Err(EncoderError::Decode(_))));
    let mut wire = Bytes::from_static(&[198, 134, 255, 255, 255, 255, 255, 255, 255, 127]);
    assert!(matches!(decode_value(&Shape::Date, &mut wire), Err(EncoderError::Decode(_))));
    let mut wire = Bytes::from_static(&[197, 134, 255, 255, 255, 255, 255, 255, 255, 127, 0]);
    assert!(matches!(decode_value(&Shape::DateTime, &mut wire), Err(EncoderError::Decode(_))));
}

#[test]
fn test_bytes_encode() {
    let original_data = b"Hello, World! This is binary data \x00\x01\x02\xFF";
    let original_bytes = Bytes::from_static(original_data);
    let mut writer = BytesMut::new();
    original_bytes.encode(&mut writer).unwrap();
    let mut reader = writer.freeze();
    let decoded = Bytes::decode(&mut reader).unwrap();
    assert_eq!(original_bytes, decoded);
}

#[test]
fn test_bytes_from_string_data() {
    let original_string = "Hello, 日本語 test!";
    let mut writer = BytesMut::new();
    original_string.to_string().encode(&mut writer).unwrap();
    let mut reader = writer.freeze();
    let bytes_result = Bytes::decode(&mut reader).unwrap();
    assert_eq!(bytes_result, Bytes::from(original_string.as_bytes().to_vec()));
}

#[test]
fn test_bytes_from_vec_u8_data() {
    let original_vec = vec![0x00, 0x01, 0x02, 0x03, 0xFF, 0xFE, 0xFD];
    let mut writer = BytesMut::new();
    original_vec.encode(&mut writer).unwrap();
    let mut reader = writer.freeze();
    let bytes_result = Bytes::decode(&mut reader).unwrap();
    assert_eq!(bytes_result, Bytes::from(original_vec));
}

#[test]
fn test_bytes_empty() {
    let empty_bytes = Bytes::new();
    let mut writer = BytesMut::new();
    empty_bytes.encode(&mut writer).unwrap();
    let mut reader = writer.freeze();
    let decoded = Bytes::decode(&mut reader).unwrap();
    assert_eq!(empty_bytes, decoded);
    assert_eq!(decoded.len(), 0);
}

#[test]
fn test_bytes_string_compatibility() {
    let short_string = "short";
    let mut writer_short = BytesMut::new();
    short_string.to_string().encode(&mut writer_short).unwrap();
    let mut reader_short = writer_short.freeze();
    let bytes_short = Bytes::decode(&mut reader_short).unwrap();
    assert_eq!(bytes_short, Bytes::from(short_string.as_bytes().to_vec()));

    let long_string = "a".repeat(100);
    let expected_bytes = Bytes::from(long_string.as_bytes().to_vec());
    let mut writer_long = BytesMut::new();
    long_string.encode(&mut writer_long).unwrap();
    let mut reader_long = writer_long.freeze();
    let bytes_long = Bytes::decode(&mut reader_long).unwrap();
    assert_eq!(bytes_long, expected_bytes);

    let mut as_blob = encoded(&Shape::Text, &text(&long_string));
    assert_eq!(
        decode_value(&Shape::Blob, &mut as_blob).unwrap(),
        Value::Blob(long_string.as_bytes().to_vec())
    );
}

fn address() -> Shape {
    named_struct(
        "Address",
        vec![
            field("street", "String", Shape::Text),
            field("city", "String", Shape::Text),
            field("postal_code", "Option < String >", optional(Shape::Text)),
            field(
                "coordinates",
                "Option < (f64 , f64) >",
                optional(Shape::Tuple(vec![Shape::F64, Shape::F64])),
            ),
        ],
    )
}

fn personal_info() -> Shape {
    named_struct(
        "PersonalInfo",
        vec![
            field("first_name", "String", Shape::Text),
            field("last_name", "String", Shape::Text),
            field("age", "u8", Shape::U8),
            field("email", "Option < String >", optional(Shape::Text)),
            field("phone_numbers", "Vec < String >", vector(Shape::Text)),
        ],
    )
}

fn payment_method() -> Shape {
    enumeration(
        "PaymentMethod",
        vec![
            plain_variant("Cash", Fields::Unit),
            plain_variant(
                "CreditCard",
                Fields::Named(vec![
                    field("number", "String", Shape::Text),
                    field("expiry", "NaiveDate", Shape::Date),
                ]),
            ),
            plain_variant(
                "BankTransfer",
                positional(vec![("String", Shape::Text), ("String", Shape::Text)]),
            ),
            plain_variant(
                "DigitalWallet",
                Fields::Named(vec![
                    field("provider", "String", Shape::Text),
                    field("wallet_id", "String", Shape::Text),
                    field("verified", "bool", Shape::Bool),
                ]),
            ),
        ],
    )
}

fn order_item() -> Shape {
    named_struct(
        "OrderItem",
        vec![
            field("product_id", "u64", Shape::U64),
            field("name", "String", Shape::Text),
            field("quantity", "u32", Shape::U32),
            field("unit_price", "f64", Shape::F64),
            field("metadata", "HashMap < String , String >", mapping(Shape::Text, Shape::Text)),
            field("tags", "HashSet < String >", vector(Shape::Text)),
        ],
    )
}

fn complex_order() -> Shape {
    let nested = mapping(
        Shape::Text,
        vector(mapping(
            Shape::Text,
            optional(Shape::Tuple(vec![Shape::I32, Shape::F64, Shape::Bool])),
        )),
    );
    named_struct(
        "ComplexOrder",
        vec![
            field("order_id", "u64", Shape::U64),
            field("customer", "PersonalInfo", personal_info()),
            field("shipping_address", "Address", address()),
            field("billing_address", "Option < Address >", optional(address())),
            field("items", "Vec < OrderItem >", vector(order_item())),
            field("payment_methods", "Vec < PaymentMethod >", vector(payment_method())),
            field("order_date", "DateTime < Utc >", Shape::DateTime),
            field("delivery_date", "Option < NaiveDate >", optional(Shape::Date)),
            field("special_instructions", "Option < String >", optional(Shape::Text)),
            field("discount_codes", "BTreeSet < String >", vector(Shape::Text)),
            field("order_notes", "IndexMap < String , String >", mapping(Shape::Text, Shape::Text)),
            field("binary_attachment", "Option < Bytes >", optional(Shape::Blob)),
            field("nested_data", "HashMap < String , Vec < HashMap < String , Option < (i32 , f64 , bool) > > > >", nested),
        ],
    )
}

fn pairs(items: Vec<(&str, Value)>) -> Value {
    Value::Pairs(items.into_iter().map(|(k, v)| (text(k), v)).collect())
}

#[test]
fn test_complex_struct_encode() {
    let shape = complex_order();
    let complex = Value::Record(vec![
        unsigned(12345678901234567890u64),
        Value::Record(vec![
            text("田中"),
            text("太郎"),
            unsigned(35),
            some(text("tanaka.taro@example.com")),
            texts(&["090-1234-5678", "03-1234-5678"]),
        ]),
        Value::Record(vec![
            text("渋谷区神南1-2-3"),
            text("東京都"),
            some(text("150-0041")),
            some(Value::Tuple(vec![float64(35.6627), float64(139.7039)])),
        ]),
        some(Value::Record(vec![
            text("新宿区新宿4-5-6"),
            text("東京都"),
            some(text("160-0022")),
            none(),
        ])),
        Value::List(vec![
            Value::Record(vec![
                unsigned(987654321),
                text("高級ボールペン"),
                unsigned(2),
                float64(1250.50),
                pairs(vec![("color", text("black")), ("brand", text("Premium"))]),
                texts(&["office", "premium", "writing"]),
            ]),
            Value::Record(vec![
                unsigned(123456789),
                text("ノートブック"),
                unsigned(5),
                float64(320.75),
                Value::Pairs(vec![]),
                texts(&["office", "paper"]),
            ]),
        ]),
        Value::List(vec![
            Value::Variant(
                1,
                vec![
                    text("1234-5678-9012-3456"),
                    date_value(&NaiveDate::from_ymd_opt(2025, 12, 31).unwrap()),
                ],
            ),
            Value::Variant(3, vec![text("PayPay"), text("user123456"), Value::Bool(true)]),
        ]),
        datetime_value(&DateTime::from_timestamp(1640995200, 123456789).unwrap()),
        some(date_value(&NaiveDate::from_ymd_opt(2022, 1, 10).unwrap())),
        some(text("玄関前に置いてください")),
        texts(&["FIRSTTIME", "NEWYEAR2022"]),
        pairs(vec![
            ("warehouse", text("checked")),
            ("shipping", text("expedited")),
            ("customer_service", text("vip_customer")),
        ]),
        some(Value::Blob(b"\x89PNG\r\n\x1a\n\x00\x00\x00\rIHDR".to_vec())),
        pairs(vec![(
            "category_a",
            Value::List(vec![
                pairs(vec![
                    (
                        "key1",
                        some(Value::Tuple(vec![signed(42), float64(3.14159), Value::Bool(true)])),
                    ),
                    ("key2", none()),
                ]),
                pairs(vec![(
                    "nested",
                    some(Value::Tuple(vec![signed(-123), float64(2.71828), Value::Bool(false)])),
                )]),
            ]),
        )]),
    ]);

    let mut buffer = BytesMut::new();
    derive_encode(&shape, &complex, &mut buffer).unwrap();
    assert!(buffer.len() > 100);
    let mut reader = buffer.freeze();
    let decoded = derive_decode(&shape, &mut reader).unwrap();
    assert_eq!(complex, decoded);

    let fields = match decoded {
        Value::Record(fields) => fields,
        _ => panic!("not a struct"),
    };
    assert_eq!(fields[0], unsigned(12345678901234567890u64));
    match &fields[1] {
        Value::Record(customer) => assert_eq!(customer[0], text("田中")),
        _ => panic!("not a struct"),
    }
    match &fields[4] {
        Value::List(items) => {
            assert_eq!(items.len(), 2);
            match &items[0] {
                Value::Record(item) => assert_eq!(item[2], unsigned(2)),
                _ => panic!("not a struct"),
            }
        }
        _ => panic!("not a list"),
    }
    match &fields[5] {
        Value::List(methods) => {
            assert_eq!(methods.len(), 2);
            assert!(matches!(methods[0], Value::Variant(1, _)));
        }
        _ => panic!("not a list"),
    }
    assert!(matches!(fields[11], Value::Maybe(Some(_))));
    assert!(matches!(&fields[9], Value::List(codes) if codes.len() == 2));
    assert!(matches!(&fields[10], Value::Pairs(notes) if notes.len() == 3));
    assert!(matches!(&fields[12], Value::Pairs(nested) if nested.len() == 1));
}

#[test]
fn test_complex_struct_partial_fields() {
    let shape = complex_order();
    let minimal = Value::Record(vec![
        unsigned(1),
        Value::Record(vec![text("Test"), text("User"), unsigned(25), none(), texts(&[])]),
        Value::Record(vec![text("Test Street"), text("Test City"), none(), none()]),
        none(),
        Value::List(vec![]),
        Value::List(vec![Value::Variant(0, vec![])]),
        datetime_value(&DateTime::from_timestamp(1640995200, 0).unwrap()),
        none(),
        none(),
        texts(&[]),
        Value::Pairs(vec![]),
        none(),
        Value::Pairs(vec![]),
    ]);
    let mut buffer = BytesMut::new();
    derive_encode(&shape, &minimal, &mut buffer).unwrap();
    let mut reader = buffer.freeze();
    let decoded = derive_decode(&shape, &mut reader).unwrap();
    assert_eq!(minimal, decoded);
    let fields = match decoded {
        Value::Record(fields) => fields,
        _ => panic!("not a struct"),
    };
    assert_eq!(fields[3], none());
    assert!(matches!(&fields[1], Value::Record(customer) if customer[3] == none()));
    assert!(matches!(&fields[4], Value::List(items) if items.is_empty()));
    assert_eq!(fields[11], none());
}

#[test]
fn test_option_u16_debug() {
    let value: Option<u16> = Some(123);
    let mut buffer = BytesMut::new();
    value.encode(&mut buffer).unwrap();
    let mut reader = buffer.freeze();
    let decoded = Option::<u16>::decode(&mut reader).unwrap();
    assert_eq!(value, decoded);

    let none_value: Option<u16> = None;
    let mut buffer2 = BytesMut::new();
    none_value.encode(&mut buffer2).unwrap();
    let mut reader2 = buffer2.freeze();
    let decoded2 = Option::<u16>::decode(&mut reader2).unwrap();
    assert_eq!(none_value, decoded2);
}

#[test]
fn test_payment_method_debug() {
    let payment = Value::Variant(
        1,
        vec![text("1234-5678-9012-3456"), date_value(&NaiveDate::from_ymd_opt(2025, 12, 31).unwrap())],
    );
    let shape = payment_method();
    let mut buffer = BytesMut::new();
    derive_encode(&shape, &payment, &mut buffer).unwrap();
    let mut reader = buffer.freeze();
    let decoded = derive_decode(&shape, &mut reader).unwrap();
    assert_eq!(payment, decoded);
}

#[test]
fn test_simple_struct_with_option() {
    let shape =
        named_struct("SimpleStruct", vec![field("value", "Option < u16 >", optional(Shape::U16))]);
    let value = Value::Record(vec![some(unsigned(123))]);
    let mut buffer = BytesMut::new();
    derive_encode(&shape, &value, &mut buffer).unwrap();
    let mut reader = buffer.freeze();
    assert_eq!(derive_decode(&shape, &mut reader).unwrap(), value);
}

#[test]
fn test_simple_enum_with_option() {
    let shape = enumeration(
        "SimpleEnum",
        vec![
            plain_variant(
                "VariantA",
                Fields::Named(vec![field("value", "Option < u16 >", optional(Shape::U16))]),
            ),
            plain_variant("VariantB", Fields::Unit),
        ],
    );
    let value = Value::Variant(0, vec![some(unsigned(123))]);
    let mut buffer = BytesMut::new();
    derive_encode(&shape, &value, &mut buffer).unwrap();
    let mut reader = buffer.freeze();
    assert_eq!(derive_decode(&shape, &mut reader).unwrap(), value);
}

#[test]
fn test_enum_with_chrono() {
    let shape = enumeration(
        "SimpleEnumChrono",
        vec![
            plain_variant("VariantA", Fields::Named(vec![field("date", "NaiveDate", Shape::Date)])),
            plain_variant("VariantB", Fields::Unit),
        ],
    );
    let date = NaiveDate::from_ymd_opt(2025, 12, 31).unwrap();
    let value = Value::Variant(0, vec![date_value(&date)]);
    let mut buffer = BytesMut::new();
    derive_encode(&shape, &value, &mut buffer).unwrap();
    let mut reader = buffer.freeze();
    let decoded = derive_decode(&shape, &mut reader).unwrap();
    assert_eq!(value, decoded);
    match decoded {
        Value::Variant(0, items) => assert_eq!(date_of(&items[0]), date),
        _ => panic!("unexpected variant"),
    }
}

#[test]
fn test_cross_decode_struct_option() {
    let struct_a = named_struct("StructA", vec![field("value", "i32", Shape::I32)]);
    let struct_b =
        named_struct("StructB", vec![field("value", "Option < i32 >", optional(Shape::I32))]);

    let mut buf = BytesMut::new();
    derive_encode(&struct_a, &Value::Record(vec![signed(42)]), &mut buf).unwrap();
    let b = derive_decode(&struct_b, &mut buf.freeze()).unwrap();
    assert_eq!(b, Value::Record(vec![some(signed(42))]));

    let mut buf = BytesMut::new();
    derive_encode(&struct_b, &Value::Record(vec![some(signed(-99))]), &mut buf).unwrap();
    let a = derive_decode(&struct_a, &mut buf.freeze()).unwrap();
    assert_eq!(a, Value::Record(vec![signed(-99)]));

    let mut buf = BytesMut::new();
    derive_encode(&struct_b, &Value::Record(vec![none()]), &mut buf).unwrap();
    let a = derive_decode(&struct_a, &mut buf.freeze());
    assert!(a.is_err(), "None→i32はエラーになるべき");
}

#[test]
fn test_decimal_encode() {
    let test_values = vec![
        Decimal::new(0, 0),
        Decimal::new(123, 0),
        Decimal::new(-456, 0),
        Decimal::new(12345, 2),
        Decimal::new(-67890, 3),
        Decimal::from_str("3.14159").unwrap(),
        Decimal::from_str("999999999999999999999999999.999999999").unwrap(),
        Decimal::from_str("-999999999999999999999999999.999999999").unwrap(),
    ];
    for &original in &test_values {
        let decoded = decimal_of(&roundtrip(&Shape::Decimal, &decimal_value(&original)));
        assert_eq!(original, decoded, "Failed roundtrip for decimal: {}", original);
    }
}

#[test]
fn test_decimal_precision() {
    let original = Decimal::from_str("0.123456789012345678901234567890").unwrap();
    let decoded = decimal_of(&roundtrip(&Shape::Decimal, &decimal_value(&original)));
    assert_eq!(original, decoded);
    assert_eq!(original.to_string(), decoded.to_string());
}

#[test]
fn test_decimal_zero_and_negative_zero() {
    let zero = Decimal::ZERO;
    let negative_zero = Decimal::new(0, 0);
    let decoded = decimal_of(&roundtrip(&Shape::Decimal, &decimal_value(&zero)));
    assert_eq!(zero, decoded);
    assert_eq!(negative_zero, decoded);
}

#[test]
fn test_decimal_in_struct() {
    let shape = named_struct(
        "PriceStruct",
        vec![
            field("name", "String", Shape::Text),
            field("price", "Decimal", Shape::Decimal),
            field("quantity", "u32", Shape::U32),
            field("total", "Option < Decimal >", optional(Shape::Decimal)),
        ],
    );
    let value = Value::Record(vec![
        text("Test Product"),
        decimal_value(&Decimal::from_str("123.45").unwrap()),
        unsigned(10),
        some(decimal_value(&Decimal::from_str("1234.50").unwrap())),
    ]);
    let mut buffer = BytesMut::new();
    derive_encode(&shape, &value, &mut buffer).unwrap();
    assert_eq!(derive_decode(&shape, &mut buffer.freeze()).unwrap(), value);
}

#[test]
fn test_decimal_in_collections() {
    let values = vec![
        Decimal::from_str("1.1").unwrap(),
        Decimal::from_str("2.22").unwrap(),
        Decimal::from_str("3.333").unwrap(),
    ];
    let list = Value::List(values.iter().map(decimal_value).collect());
    assert_eq!(roundtrip(&vector(Shape::Decimal), &list), list);
    let map = pairs(vec![
        ("price", decimal_value(&Decimal::from_str("99.99").unwrap())),
        ("tax", decimal_value(&Decimal::from_str("8.25").unwrap())),
    ]);
    assert_eq!(roundtrip(&mapping(Shape::Text, Shape::Decimal), &map), map);
}

#[test]
fn test_uuid_encode() {
    let test_uuids = vec![
        Uuid::nil(),
        Uuid::from_str("550e8400-e29b-41d4-a716-446655440000").unwrap(),
        Uuid::from_str("6ba7b810-9dad-11d1-80b4-00c04fd430c8").unwrap(),
        Uuid::from_str("6ba7b811-9dad-11d1-80b4-00c04fd430c8").unwrap(),
        Uuid::from_str("ffffffff-ffff-ffff-ffff-ffffffffffff").unwrap(),
    ];
    for &original in &test_uuids {
        let buffer = encoded(&Shape::Uuid, &Value::Uuid(original.as_u128()));
        assert_eq!(buffer.len(), 17, "UUID encoding should produce 17 bytes for UUID: {}", original);
        let mut reader = buffer;
        let decoded = uuid_of(&decode_value(&Shape::Uuid, &mut reader).unwrap());
        assert_eq!(original, decoded, "Failed roundtrip for UUID: {}", original);
    }
}

#[test]
fn test_uuid_v4_random() {
    for _ in 0..10 {
        let original = Uuid::new_v4();
        let decoded = uuid_of(&roundtrip(&Shape::Uuid, &Value::Uuid(original.as_u128())));
        assert_eq!(original, decoded);
        assert_eq!(original.to_string(), decoded.to_string());
    }
}

#[test]
fn test_uuid_in_struct() {
    let shape = named_struct(
        "UserStruct",
        vec![
            field("id", "Uuid", Shape::Uuid),
            field("name", "String", Shape::Text),
            field("session_id", "Option < Uuid >", optional(Shape::Uuid)),
        ],
    );
    let value = Value::Record(vec![
        Value::Uuid(Uuid::from_str("550e8400-e29b-41d4-a716-446655440000").unwrap().as_u128()),
        text("Test User"),
        some(Value::Uuid(Uuid::from_str("6ba7b810-9dad-11d1-80b4-00c04fd430c8").unwrap().as_u128())),
    ]);
    let mut buffer = BytesMut::new();
    derive_encode(&shape, &value, &mut buffer).unwrap();
    assert_eq!(derive_decode(&shape, &mut buffer.freeze()).unwrap(), value);
}

#[test]
fn test_uuid_in_collections() {
    let ids = vec![
        Uuid::from_str("550e8400-e29b-41d4-a716-446655440000").unwrap(),
        Uuid::from_str("6ba7b810-9dad-11d1-80b4-00c04fd430c8").unwrap(),
        Uuid::nil(),
    ];
    let list = Value::List(ids.iter().map(|id| Value::Uuid(id.as_u128())).collect());
    assert_eq!(roundtrip(&vector(Shape::Uuid), &list), list);
    let map = pairs(vec![("user1", Value::Uuid(ids[0].as_u128())), ("user2", Value::Uuid(ids[1].as_u128()))]);
    assert_eq!(roundtrip(&mapping(Shape::Text, Shape::Uuid), &map), map);
}

#[test]
fn test_uuid_nil_special_case() {
    let nil_uuid = Uuid::nil();
    let decoded = uuid_of(&roundtrip(&Shape::Uuid, &Value::Uuid(nil_uuid.as_u128())));
    assert_eq!(nil_uuid, decoded);
    assert_eq!(decoded.to_string(), "00000000-0000-0000-0000-000000000000");
    assert!(decoded.is_nil());
}

#[test]
fn test_ulid_encode() {
    let test_ulids = vec![
        Ulid::nil(),
        Ulid::from_string("01ARZ3NDEKTSV4RRFFQ69G5FAV").unwrap(),
        Ulid::from_string("01BX5ZZKBKACTAV9WEVGEMMVS0").unwrap(),
        Ulid::from_string("7ZZZZZZZZZZZZZZZZZZZZZZZZZ").unwrap(),
    ];
    for &original in &test_ulids {
        let buffer = encoded(&Shape::Uuid, &Value::Uuid(original.0));
        assert_eq!(buffer.len(), 17, "ULID encoding should produce 17 bytes for ULID: {}", original);
        let mut reader = buffer;
        let decoded = ulid_of(&decode_value(&Shape::Uuid, &mut reader).unwrap());
        assert_eq!(original, decoded, "Failed roundtrip for ULID: {}", original);
    }
}

#[test]
fn test_ulid_new() {
    let original = Ulid::new();
    let decoded = ulid_of(&roundtrip(&Shape::Uuid, &Value::Uuid(original.0)));
    assert_eq!(original, decoded);
    assert_eq!(original.to_string(), decoded.to_string());
}

#[test]
fn test_ulid_in_struct() {
    let shape = named_struct(
        "EventStruct",
        vec![
            field("id", "Ulid", Shape::Uuid),
            field("name", "String", Shape::Text),
            field("parent_id", "Option < Ulid >", optional(Shape::Uuid)),
        ],
    );
    let value = Value::Record(vec![
        Value::Uuid(Ulid::from_string("01ARZ3NDEKTSV4RRFFQ69G5FAV").unwrap().0),
        text("Test Event"),
        some(Value::Uuid(Ulid::from_string("01BX5ZZKBKACTAV9WEVGEMMVS0").unwrap().0)),
    ]);
    let mut buffer = BytesMut::new();
    derive_encode(&shape, &value, &mut buffer).unwrap();
    assert_eq!(derive_decode(&shape, &mut buffer.freeze()).unwrap(), value);
}

#[test]
fn test_ulid_in_collections() {
    let ids = vec![
        Ulid::from_string("01ARZ3NDEKTSV4RRFFQ69G5FAV").unwrap(),
        Ulid::from_string("01BX5ZZKBKACTAV9WEVGEMMVS0").unwrap(),
        Ulid::nil(),
    ];
    let list = Value::List(ids.iter().map(|id| Value::Uuid(id.0)).collect());
    assert_eq!(roundtrip(&vector(Shape::Uuid), &list), list);
    let map = pairs(vec![("event1", Value::Uuid(ids[0].0)), ("event2", Value::Uuid(ids[1].0))]);
    assert_eq!(roundtrip(&mapping(Shape::Text, Shape::Uuid), &map), map);
}

#[test]
fn test_uuid_ulid_compatibility() {
    let uuid = Uuid::from_str("550e8400-e29b-41d4-a716-446655440000").unwrap();
    let ulid = Ulid::from_string("01ARZ3NDEKTSV4RRFFQ69G5FAV").unwrap();

    let ulid_from_uuid = ulid_of(&roundtrip(&Shape::Uuid, &Value::Uuid(uuid.as_u128())));
    let uuid_from_ulid = uuid_of(&roundtrip(&Shape::Uuid, &Value::Uuid(ulid.0)));
    assert_ne!(ulid_from_uuid.to_string(), uuid.to_string());
    assert_ne!(uuid_from_ulid.to_string(), ulid.to_string());

    let uuid_decoded = uuid_of(&roundtrip(&Shape::Uuid, &Value::Uuid(uuid.as_u128())));
    assert_eq!(uuid, uuid_decoded);
    let ulid_decoded = ulid_of(&roundtrip(&Shape::Uuid, &Value::Uuid(ulid.0)));
    assert_eq!(ulid, ulid_decoded);
}

#[test]
fn test_struct_with_arc_generic_fields() {
    let shape = named_struct(
        "ArcStruct",
        vec![
            field("shared_text", "Arc < String >", Shape::Text),
            field("shared_numbers", "Arc < Vec < i32 > >", vector(Shape::I32)),
            field("optional_shared", "Option < Arc < String > >", optional(Shape::Text)),
        ],
    );
    let shared = Arc::new("shared".to_string());
    let value = Value::Record(vec![
        text(&shared),
        Value::List(vec![signed(1), signed(2), signed(3)]),
        some(text("optional")),
    ]);
    let mut buffer = BytesMut::new();
    derive_encode(&shape, &value, &mut buffer).unwrap();
    assert_eq!(derive_decode(&shape, &mut buffer.freeze()).unwrap(), value);
}

#[test]
fn test_is_default_method() {
    assert!(0u32.is_default());
    assert!(!42u32.is_default());
    assert!(0i32.is_default());
    assert!(!(-5i32).is_default());
    assert!(false.is_default());
    assert!(!true.is_default());
    assert!(Float64 { bits: 0.0f64.to_bits() }.is_default());
    assert!(!Float64 { bits: 3.14f64.to_bits() }.is_default());

    assert!("".to_string().is_default());
    assert!(!"hello".to_string().is_default());

    assert!(Option::<i32>::None.is_default());
    assert!(!Some(42).is_default());

    assert!(Vec::<i32>::new().is_default());
    assert!(!vec![1, 2, 3].is_default());

    assert!(is_default_value(&Shape::Tuple(vec![]), &Value::Tuple(vec![])));
    let pair = Shape::Tuple(vec![Shape::I32, Shape::Text]);
    assert!(is_default_value(&pair, &Value::Tuple(vec![signed(0), text("")])));
    assert!(!is_default_value(&pair, &Value::Tuple(vec![signed(42), text("hello")])));
}

fn skip_default_fields() -> Vec<FieldDef> {
    vec![
        flagged("optional_field", "i32", Shape::I32, "skip_default"),
        field("normal_field", "String", Shape::Text),
        flagged("default_string", "String", Shape::Text, "skip_default"),
    ]
}

#[test]
fn test_skip_default_attribute() {
    let shape = named_struct("TestSkipDefault", skip_default_fields());
    let test_default = Value::Record(vec![signed(0), text("hello"), text("")]);
    let mut buffer = BytesMut::new();
    derive_encode(&shape, &test_default, &mut buffer).unwrap();
    let buffer1_len = buffer.len();
    assert_eq!(derive_decode(&shape, &mut buffer.freeze()).unwrap(), test_default);

    let test_non_default = Value::Record(vec![signed(42), text("world"), text("non-empty")]);
    let mut buffer2 = BytesMut::new();
    derive_encode(&shape, &test_non_default, &mut buffer2).unwrap();
    let buffer2_len = buffer2.len();
    assert_eq!(derive_decode(&shape, &mut buffer2.freeze()).unwrap(), test_non_default);
    assert!(buffer1_len < buffer2_len);
}

#[test]
fn test_tuple_as_values() {
    let shape = named_struct(
        "TupleStruct",
        vec![
            field("pair", "(i32 , String)", Shape::Tuple(vec![Shape::I32, Shape::Text])),
            field(
                "triple",
                "(f64 , bool , u8)",
                Shape::Tuple(vec![Shape::F64, Shape::Bool, Shape::U8]),
            ),
            field("unit", "()", Shape::Tuple(vec![])),
        ],
    );
    let value = Value::Record(vec![
        Value::Tuple(vec![signed(42), text("hello")]),
        Value::Tuple(vec![float64(3.14), Value::Bool(true), unsigned(255)]),
        Value::Tuple(vec![]),
    ]);
    let mut buffer = BytesMut::new();
    derive_encode(&shape, &value, &mut buffer).unwrap();
    assert_eq!(derive_decode(&shape, &mut buffer.freeze()).unwrap(), value);

    let unit = encoded(&Shape::Tuple(vec![]), &Value::Tuple(vec![]));
    assert_eq!(unit.as_ref(), &[195, 0]);
}

#[test]
fn test_tuple_in_collections() {
    let pair = Shape::Tuple(vec![Shape::I32, Shape::Text]);
    let list = Value::List(vec![
        Value::Tuple(vec![signed(1), text("one")]),
        Value::Tuple(vec![signed(2), text("two")]),
    ]);
    assert_eq!(roundtrip(&vector(pair), &list), list);
    let map = pairs(vec![
        ("origin", Value::Tuple(vec![float64(0.0), float64(0.0)])),
        ("point", Value::Tuple(vec![float64(1.5), float64(-2.5)])),
    ]);
    let shape = mapping(Shape::Text, Shape::Tuple(vec![Shape::F64, Shape::F64]));
    assert_eq!(roundtrip(&shape, &map), map);
}

#[test]
fn test_various_tuple_sizes() {
    for size in [1usize, 2, 4, 5, 10, 12] {
        let shape = Shape::Tuple((0..size).map(|_| Shape::I32).collect());
        let value = Value::Tuple((1..=size).map(|n| signed(n as i64)).collect());
        assert_eq!(roundtrip(&shape, &value), value);
    }
    let shape = Shape::Tuple(vec![Shape::I32, Shape::Text, Shape::F64]);
    let value = Value::Tuple(vec![signed(1), text("two"), float64(3.0)]);
    assert_eq!(roundtrip(&shape, &value), value);

    let two = Shape::Tuple(vec![Shape::I32, Shape::I32]);
    let three = Shape::Tuple(vec![Shape::I32, Shape::I32, Shape::I32]);
    let mut wire = encoded(&two, &Value::Tuple(vec![signed(1), signed(2)]));
    assert!(matches!(decode_value(&three, &mut wire), Err(EncoderError::Decode(_))));
}

#[test]
fn test_unnamed_structs() {
    let point = tuple_struct("Point2D", vec![("f64", Shape::F64), ("f64", Shape::F64)]);
    let value = Value::Record(vec![float64(1.5), float64(-2.5)]);
    let mut buffer = BytesMut::new();
    derive_encode(&point, &value, &mut buffer).unwrap();
    assert_eq!(buffer[0], 184);
    assert_eq!(buffer[1], 2);
    assert_eq!(derive_decode(&point, &mut buffer.freeze()).unwrap(), value);

    let wrapper = tuple_struct("Wrapper", vec![("String", Shape::Text)]);
    let value = Value::Record(vec![text("wrapped")]);
    let mut buffer = BytesMut::new();
    derive_encode(&wrapper, &value, &mut buffer).unwrap();
    assert_eq!(derive_decode(&wrapper, &mut buffer.freeze()).unwrap(), value);

    let unit = Shape::Struct(Box::new(StructDef {
        name: "Unit".to_string(),
        fields: Fields::Unit,
        disable_encode: false,
        disable_pack: false,
    }));
    let value = Value::Record(vec![]);
    let mut buffer = BytesMut::new();
    derive_encode(&unit, &value, &mut buffer).unwrap();
    assert_eq!(buffer.as_ref(), &[182]);
    assert_eq!(derive_decode(&unit, &mut buffer.freeze()).unwrap(), value);
}

#[test]
fn test_unnamed_struct_with_complex_types() {
    let shape = tuple_struct(
        "Complex",
        vec![
            ("Vec < String >", vector(Shape::Text)),
            ("Option < i32 >", optional(Shape::I32)),
            ("HashMap < String , u64 >", mapping(Shape::Text, Shape::U64)),
        ],
    );
    let value = Value::Record(vec![
        texts(&["a", "b"]),
        some(signed(-7)),
        pairs(vec![("k", unsigned(1))]),
    ]);
    let mut buffer = BytesMut::new();
    derive_encode(&shape, &value, &mut buffer).unwrap();
    assert_eq!(derive_decode(&shape, &mut buffer.freeze()).unwrap(), value);
    let empty = Value::Record(vec![texts(&[]), none(), Value::Pairs(vec![])]);
    let mut buffer = BytesMut::new();
    derive_encode(&shape, &empty, &mut buffer).unwrap();
    assert_eq!(derive_decode(&shape, &mut buffer.freeze()).unwrap(), empty);
}

#[test]
fn test_unnamed_struct_in_collections() {
    let point = tuple_struct("Point", vec![("i32", Shape::I32), ("i32", Shape::I32)]);
    let list = Value::List(vec![
        Value::Record(vec![signed(1), signed(2)]),
        Value::Record(vec![signed(-3), signed(4)]),
    ]);
    assert_eq!(roundtrip(&vector(point), &list), list);
    let point = tuple_struct("Point", vec![("i32", Shape::I32), ("i32", Shape::I32)]);
    let map = pairs(vec![("a", Value::Record(vec![signed(0), signed(0)]))]);
    assert_eq!(roundtrip(&mapping(Shape::Text, point), &map), map);
}

#[test]
fn test_nested_unnamed_structs() {
    let inner = tuple_struct("Inner", vec![("u8", Shape::U8), ("String", Shape::Text)]);
    let outer = tuple_struct("Outer", vec![("Inner", inner), ("bool", Shape::Bool)]);
    let value = Value::Record(vec![Value::Record(vec![unsigned(9), text("in")]), Value::Bool(true)]);
    let mut buffer = BytesMut::new();
    derive_encode(&outer, &value, &mut buffer).unwrap();
    assert_eq!(derive_decode(&outer, &mut buffer.freeze()).unwrap(), value);
    let wrong = Value::Record(vec![Value::Record(vec![unsigned(9)]), Value::Bool(true)]);
    let mut buffer = BytesMut::new();
    assert!(derive_encode(&outer, &wrong, &mut buffer).is_err());
}

#[test]
fn test_enum_field_skip_default() {
    let shape = enumeration(
        "TestEnumSkipDefault",
        vec![
            plain_variant("VariantA", Fields::Named(skip_default_fields())),
            plain_variant("VariantB", Fields::Named(vec![field("value", "u64", Shape::U64)])),
        ],
    );
    let test_default = Value::Variant(0, vec![signed(0), text("hello"), text("")]);
    let mut buffer = BytesMut::new();
    derive_encode(&shape, &test_default, &mut buffer).unwrap();
    let buffer1_len = buffer.len();
    assert_eq!(derive_decode(&shape, &mut buffer.freeze()).unwrap(), test_default);

    let test_non_default = Value::Variant(0, vec![signed(42), text("world"), text("non-empty")]);
    let mut buffer2 = BytesMut::new();
    derive_encode(&shape, &test_non_default, &mut buffer2).unwrap();
    let buffer2_len = buffer2.len();
    assert_eq!(derive_decode(&shape, &mut buffer2.freeze()).unwrap(), test_non_default);
    assert!(buffer1_len < buffer2_len);
}

#[test]
fn test_enum_default_attribute() {
    let padding = enumeration(
        "Padding",
        vec![
            plain_variant("Space", Fields::Unit),
            plain_variant("Zero", Fields::Unit),
            default_variant("None", Fields::Unit),
        ],
    );
    let status = enumeration(
        "Status",
        vec![
            default_variant("Inactive", Fields::Unit),
            plain_variant("Active", Fields::Named(vec![field("enabled", "bool", Shape::Bool)])),
            plain_variant("Pending", positional(vec![("String", Shape::Text)])),
        ],
    );

    let default_padding = zero_value(&padding);
    assert_eq!(default_padding, Value::Variant(2, vec![]));
    assert!(is_default_value(&padding, &default_padding));
    assert!(!is_default_value(&padding, &Value::Variant(0, vec![])));
    assert!(!is_default_value(&padding, &Value::Variant(1, vec![])));

    let default_status = zero_value(&status);
    assert_eq!(default_status, Value::Variant(0, vec![]));
    assert!(is_default_value(&status, &default_status));
    assert!(!is_default_value(&status, &Value::Variant(1, vec![Value::Bool(true)])));
    assert!(!is_default_value(&status, &Value::Variant(1, vec![Value::Bool(false)])));
    assert!(!is_default_value(&status, &Value::Variant(2, vec![text("test")])));

    let mut buffer = BytesMut::new();
    derive_encode(&padding, &default_padding, &mut buffer).unwrap();
    let decoded_padding = derive_decode(&padding, &mut buffer.freeze()).unwrap();
    assert_eq!(default_padding, decoded_padding);
    assert!(is_default_value(&padding, &decoded_padding));

    let mut buffer2 = BytesMut::new();
    derive_encode(&status, &default_status, &mut buffer2).unwrap();
    let decoded_status = derive_decode(&status, &mut buffer2.freeze()).unwrap();
    assert_eq!(default_status, decoded_status);
    assert!(is_default_value(&status, &decoded_status));
}

#[test]
fn test_fxhashmap_encode_decode() {
    let mut map: fxhash::FxHashMap<String, i32> = fxhash::FxHashMap::default();
    map.insert("key1".to_string(), 42);
    map.insert("key2".to_string(), 84);
    map.insert("key3".to_string(), 126);
    let shape = mapping(Shape::Text, Shape::I32);
    let value = Value::Pairs(map.iter().map(|(k, v)| (text(k), signed(*v as i64))).collect());
    let decoded: fxhash::FxHashMap<String, i32> = match roundtrip(&shape, &value) {
        Value::Pairs(items) => items
            .into_iter()
            .map(|(k, v)| match (k, v) {
                (Value::Text(k), Value::Signed(v)) => (k, v as i32),
                _ => panic!("not an entry"),
            })
            .collect(),
        _ => panic!("not a mapping"),
    };
    assert_eq!(map, decoded);
    assert_eq!(decoded.len(), 3);
    assert_eq!(decoded.get("key1"), Some(&42));
    assert_eq!(decoded.get("key2"), Some(&84));
    assert_eq!(decoded.get("key3"), Some(&126));
}

#[test]
fn test_ahashmap_encode_decode() {
    let mut map: ahash::AHashMap<String, i32> = ahash::AHashMap::new();
    map.insert("key1".to_string(), 42);
    map.insert("key2".to_string(), 84);
    map.insert("key3".to_string(), 126);
    let shape = mapping(Shape::Text, Shape::I32);
    let value = Value::Pairs(map.iter().map(|(k, v)| (text(k), signed(*v as i64))).collect());
    let decoded: ahash::AHashMap<String, i32> = match roundtrip(&shape, &value) {
        Value::Pairs(items) => items
            .into_iter()
            .map(|(k, v)| match (k, v) {
                (Value::Text(k), Value::Signed(v)) => (k, v as i32),
                _ => panic!("not an entry"),
            })
            .collect(),
        _ => panic!("not a mapping"),
    };
    assert_eq!(map, decoded);
    assert_eq!(decoded.len(), 3);
    assert_eq!(decoded.get("key1"), Some(&42));
    assert_eq!(decoded.get("key2"), Some(&84));
    assert_eq!(decoded.get("key3"), Some(&126));
}

fn text_set(value: Value) -> HashSet<String> {
    match value {
        Value::List(items) => items
            .into_iter()
            .map(|v| match v {
                Value::Text(s) => s,
                _ => panic!("not text"),
            })
            .collect(),
        _ => panic!("not a list"),
    }
}

#[test]
fn test_fxhashset_encode_decode() {
    let mut set: fxhash::FxHashSet<String> = fxhash::FxHashSet::default();
    set.insert("item1".to_string());
    set.insert("item2".to_string());
    set.insert("item3".to_string());
    let value = Value::List(set.iter().map(|s| text(s)).collect());
    let decoded = text_set(roundtrip(&vector(Shape::Text), &value));
    assert_eq!(decoded.len(), 3);
    assert!(decoded.contains("item1"));
    assert!(decoded.contains("item2"));
    assert!(decoded.contains("item3"));
    assert_eq!(set.iter().cloned().collect::<HashSet<String>>(), decoded);
    assert_eq!(set.len(), decoded.len());
}

#[test]
fn test_ahashset_encode_decode() {
    let mut set: ahash::AHashSet<String> = ahash::AHashSet::new();
    set.insert("item1".to_string());
    set.insert("item2".to_string());
    set.insert("item3".to_string());
    let value = Value::List(set.iter().map(|s| text(s)).collect());
    let decoded = text_set(roundtrip(&vector(Shape::Text), &value));
    assert_eq!(decoded.len(), 3);
    assert!(decoded.contains("item1"));
    assert!(decoded.contains("item2"));
    assert!(decoded.contains("item3"));
    assert_eq!(set.iter().cloned().collect::<HashSet<String>>(), decoded);
    assert_eq!(set.len(), decoded.len());
}

#[test]
fn test_smolstr_encode_decode() {
    for original in ["", "short", "this is a longer string that takes more than forty bytes to write"] {
        let small = smol_str::SmolStr::new(original);
        let decoded = roundtrip(&Shape::Text, &text(small.as_str()));
        assert_eq!(decoded, text(original));
        match decoded {
            Value::Text(s) => assert_eq!(smol_str::SmolStr::new(s), small),
            _ => panic!("not text"),
        }
    }
}

#[test]
fn test_smolstr_string_compatibility() {
    let small = smol_str::SmolStr::new("compatible");
    let mut wire = encoded(&Shape::Text, &text(small.as_str()));
    assert_eq!(String::decode(&mut wire).unwrap(), "compatible");
    let mut buffer = BytesMut::new();
    "compatible".to_string().encode(&mut buffer).unwrap();
    assert_eq!(decode_value(&Shape::Text, &mut buffer.freeze()).unwrap(), text(small.as_str()));
}

#[test]
fn test_smolstr_in_struct() {
    let shape = named_struct(
        "SmolStruct",
        vec![
            field("name", "SmolStr", Shape::Text),
            field("tag", "Option < SmolStr >", optional(Shape::Text)),
        ],
    );
    let value = Value::Record(vec![text("name"), some(text("tag"))]);
    let mut buffer = BytesMut::new();
    derive_encode(&shape, &value, &mut buffer).unwrap();
    assert_eq!(derive_decode(&shape, &mut buffer.freeze()).unwrap(), value);
}

#[test]
fn test_smolstr_in_collections() {
    let list = texts(&["a", "b", "c"]);
    assert_eq!(roundtrip(&vector(Shape::Text), &list), list);
    let map = pairs(vec![("k1", text("v1")), ("k2", text("v2"))]);
    assert_eq!(roundtrip(&mapping(Shape::Text, Shape::Text), &map), map);
}

#[test]
fn test_combined_features() {
    let shape = named_struct(
        "Combined",
        vec![
            field("id", "Uuid", Shape::Uuid),
            field("created", "DateTime < Utc >", Shape::DateTime),
            field("price", "Decimal", Shape::Decimal),
            field("labels", "FxHashMap < SmolStr , String >", mapping(Shape::Text, Shape::Text)),
            field("day", "NaiveDate", Shape::Date),
            field("at", "NaiveTime", Shape::Time),
        ],
    );
    let value = Value::Record(vec![
        Value::Uuid(Uuid::from_str("550e8400-e29b-41d4-a716-446655440000").unwrap().as_u128()),
        datetime_value(&DateTime::from_timestamp(1640995200, 0).unwrap()),
        decimal_value(&Decimal::from_str("19.99").unwrap()),
        pairs(vec![("k", text("v"))]),
        date_value(&NaiveDate::from_ymd_opt(2024, 2, 29).unwrap()),
        time_value(&NaiveTime::from_hms_opt(23, 59, 59).unwrap()),
    ]);
    let mut buffer = BytesMut::new();
    derive_encode(&shape, &value, &mut buffer).unwrap();
    assert_eq!(derive_decode(&shape, &mut buffer.freeze()).unwrap(), value);
}

#[test]
fn test_box_generic_encode_decode() {
    let value = Box::new(42u32);
    let mut buffer = BytesMut::new();
    value.encode(&mut buffer).unwrap();
    let decoded = Box::<u32>::decode(&mut buffer.freeze()).unwrap();
    assert_eq!(*value, *decoded);

    let value = Box::new("hello".to_string());
    let mut buffer = BytesMut::new();
    value.encode(&mut buffer).unwrap();
    let decoded = Box::<String>::decode(&mut buffer.freeze()).unwrap();
    assert_eq!(*value, *decoded);

    let value = Box::new(vec![1u32, 2, 3]);
    let mut buffer = BytesMut::new();
    value.encode(&mut buffer).unwrap();
    let decoded = Box::<Vec<u32>>::decode(&mut buffer.freeze()).unwrap();
    assert_eq!(*value, *decoded);

    let value = Box::new(Some(Box::new(5i16)));
    let mut buffer = BytesMut::new();
    value.encode(&mut buffer).unwrap();
    let decoded = Box::<Option<Box<i16>>>::decode(&mut buffer.freeze()).unwrap();
    assert_eq!(*value, *decoded);
}

#[test]
fn test_struct_with_box_generic_fields() {
    let shape = named_struct(
        "BoxStruct",
        vec![
            field("boxed_text", "Box < String >", Shape::Text),
            field("boxed_numbers", "Box < Vec < i32 > >", vector(Shape::I32)),
            field("optional_boxed", "Option < Box < String > >", optional(Shape::Text)),
        ],
    );
    let value = Value::Record(vec![
        text("boxed"),
        Value::List(vec![signed(1), signed(2), signed(3)]),
        some(text("optional")),
    ]);
    let mut buffer = BytesMut::new();
    derive_encode(&shape, &value, &mut buffer).unwrap();
    assert_eq!(derive_decode(&shape, &mut buffer.freeze()).unwrap(), value);
}

#[test]
fn test_box_vs_arc_compatibility() {
    let box_value = Box::new("test".to_string());
    let arc_value = Arc::new("test".to_string());

    let mut box_buf = BytesMut::new();
    box_value.encode(&mut box_buf).unwrap();
    let mut arc_buf = BytesMut::new();
    arc_value.encode(&mut arc_buf).unwrap();
    assert_eq!(box_buf.as_ref(), arc_buf.as_ref());

    let box_from_arc = Box::<String>::decode(&mut arc_buf.freeze()).unwrap();
    let arc_from_box = Arc::<String>::decode(&mut box_buf.freeze()).unwrap();
    assert_eq!(&*box_value, &*box_from_arc);
    assert_eq!(&*arc_value, &*arc_from_box);
}
