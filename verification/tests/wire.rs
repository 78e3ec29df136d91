use bytes::{Bytes, BytesMut};
use senax_encoder::attribute::{named_field, positional_field, variant, AttributeToken};
use senax_encoder::codec::{
    decode, decode_vec_length, decode_vec_u8, encode, encode_vec_length, encode_vec_u8, Decoder,
    Encoder, Float32, Float64,
};
use senax_encoder::derive::{
    decode_value, derive_decode, derive_encode, derive_pack, encode_value, pack_value,
    unpack_value,
};
use senax_encoder::error::{EncoderError, EnumDecodeError, StructDecodeError};
use senax_encoder::field_id::{
    read_field_id_optimized, read_u32_le, read_u64_le, write_field_id_optimized, write_u32_le,
    write_u64_le,
};
use senax_encoder::model::{EnumDef, FieldDef, Fields, Mode, Shape, StructDef, Value, VariantDef};
use senax_encoder::schema::{check_declaration, check_shape, is_valid, SchemaError};
use senax_encoder::skip::skip_value;
use senax_encoder::varint::{
    decode_u128_from_tag, decode_u16_from_tag, decode_u32_from_tag, decode_u64_from_tag,
    decode_u8_from_tag,
};

fn id_attr(id: u64) -> Vec<Vec<AttributeToken>> {
    vec![vec![
        AttributeToken::Ident("id".to_string()),
        AttributeToken::Equals,
        AttributeToken::Integer(Some(id)),
    ]]
}

fn field(name: &str, id: u64, shape: Shape) -> FieldDef {
    named_field(name, "T", shape, &id_attr(id))
}

fn named_struct(name: &str, fields: Vec<FieldDef>) -> Shape {
    Shape::Struct(Box::new(StructDef {
        name: name.to_string(),
        fields: Fields::Named(fields),
        disable_encode: false,
        disable_pack: false,
    }))
}

fn enumeration(name: &str, variants: Vec<VariantDef>) -> Shape {
    Shape::Enum(Box::new(EnumDef {
        name: name.to_string(),
        variants,
        disable_encode: false,
        disable_pack: false,
    }))
}

fn bytes_of<T: Encoder>(value: &T) -> Vec<u8> {
    encode(value).unwrap().to_vec()
}

#[test]
fn varint_boundaries() {
    assert_eq!(bytes_of(&0u64), vec![0]);
    assert_eq!(bytes_of(&1u64), vec![1]);
    assert_eq!(bytes_of(&2u64), vec![2]);
    assert_eq!(bytes_of(&127u64), vec![127]);
    assert_eq!(bytes_of(&128u64), vec![131, 0]);
    assert_eq!(bytes_of(&383u64), vec![131, 255]);
    assert_eq!(bytes_of(&384u64), vec![132, 0x80, 0x01]);
    assert_eq!(bytes_of(&65535u64), vec![132, 0xFF, 0xFF]);
    assert_eq!(bytes_of(&65536u64), vec![133, 0, 0, 1, 0]);
    assert_eq!(bytes_of(&4294967295u64), vec![133, 0xFF, 0xFF, 0xFF, 0xFF]);
    assert_eq!(bytes_of(&4294967296u64), vec![134, 0, 0, 0, 0, 1, 0, 0, 0]);
    assert_eq!(bytes_of(&u64::MAX).len(), 9);
    assert_eq!(bytes_of(&(u64::MAX as u128)).len(), 9);
    let above = u64::MAX as u128 + 1;
    let wide = bytes_of(&above);
    assert_eq!(wide.len(), 17);
    assert_eq!(wide[0], 135);
    assert_eq!(&wide[1..], &above.to_le_bytes());
    assert_eq!(bytes_of(&u128::MAX).len(), 17);
}

#[test]
fn encoding_does_not_depend_on_the_width() {
    for v in [0u8, 1, 100, 127, 128, 200, 255] {
        assert_eq!(bytes_of(&v), bytes_of(&(v as u16)));
        assert_eq!(bytes_of(&v), bytes_of(&(v as u32)));
        assert_eq!(bytes_of(&v), bytes_of(&(v as u64)));
        assert_eq!(bytes_of(&v), bytes_of(&(v as u128)));
        assert_eq!(bytes_of(&v), bytes_of(&(v as usize)));
    }
    for v in [-1i8, -5, -128] {
        assert_eq!(bytes_of(&v), bytes_of(&(v as i16)));
        assert_eq!(bytes_of(&v), bytes_of(&(v as i64)));
        assert_eq!(bytes_of(&v), bytes_of(&(v as i128)));
        assert_eq!(bytes_of(&v), bytes_of(&(v as isize)));
    }
    assert_eq!(bytes_of(&77i32), bytes_of(&77u32));
}

#[test]
fn a_wider_decoder_reads_what_a_narrower_type_wrote() {
    let mut wire = encode(&200u8).unwrap();
    assert_eq!(decode::<u64>(&mut wire).unwrap(), 200);
    let mut wire = encode(&60000u16).unwrap();
    assert_eq!(decode::<u128>(&mut wire).unwrap(), 60000);
    let mut wire = encode(&70000u32).unwrap();
    assert!(matches!(decode::<u16>(&mut wire), Err(EncoderError::Decode(_))));
    let mut wire = encode(&300u16).unwrap();
    assert!(matches!(decode::<u8>(&mut wire), Err(EncoderError::Decode(_))));
    let mut wire = encode(&256u16).unwrap();
    assert!(matches!(decode::<u8>(&mut wire), Err(EncoderError::Decode(_))));
    let mut wire = encode(&255u16).unwrap();
    assert_eq!(decode::<u8>(&mut wire).unwrap(), 255);
    let mut wire = Bytes::from_static(&[134, 5, 0, 0, 0, 0, 0, 0, 0]);
    assert_eq!(decode::<u64>(&mut wire).unwrap(), 5);
    let mut wire = Bytes::from_static(&[134, 5, 0, 0, 0, 0, 0, 0, 0]);
    assert!(matches!(decode::<u32>(&mut wire), Err(EncoderError::Decode(_))));
}

#[test]
fn negative_integers_are_marker_and_inverted_magnitude() {
    assert_eq!(bytes_of(&-5i32), vec![136, 4]);
    assert_eq!(!(-5i32 as u32), 4);
    assert_eq!(bytes_of(&-1i8), vec![136, 0]);
    assert_eq!(bytes_of(&i8::MIN), vec![136, 127]);
    assert_eq!(bytes_of(&-129i16), vec![136, 131, 0]);
    assert_eq!(bytes_of(&i64::MIN).len(), 10);
    let mut wire = Bytes::from_static(&[136, 4]);
    assert_eq!(decode::<i32>(&mut wire).unwrap(), -5);
    let mut wire = Bytes::from_static(&[136, 4]);
    assert_eq!(decode::<i8>(&mut wire).unwrap(), -5);
    let mut wire = Bytes::from_static(&[136, 131, 72]);
    assert_eq!(decode::<i8>(&mut wire).unwrap(), 55);
    let mut wire = Bytes::from_static(&[136]);
    assert!(matches!(decode::<i32>(&mut wire), Err(EncoderError::InsufficientData)));
    let mut wire = encode(&200u8).unwrap();
    assert!(matches!(decode::<i8>(&mut wire), Err(EncoderError::Decode(_))));
    let mut wire = encode(&127u8).unwrap();
    assert_eq!(decode::<i8>(&mut wire).unwrap(), 127);
}

#[test]
fn payload_decoders_take_the_tag_as_given() {
    let mut rest = Bytes::from_static(&[9, 9]);
    assert_eq!(decode_u8_from_tag(42, &mut rest).unwrap(), 42);
    assert_eq!(rest.len(), 2);
    let mut rest = Bytes::from_static(&[0, 9]);
    assert_eq!(decode_u8_from_tag(131, &mut rest).unwrap(), 128);
    assert_eq!(rest.as_ref(), &[9]);
    let mut rest = Bytes::from_static(&[128]);
    assert!(matches!(decode_u8_from_tag(131, &mut rest), Err(EncoderError::Decode(_))));
    let mut rest = Bytes::from_static(&[]);
    assert!(matches!(decode_u8_from_tag(131, &mut rest), Err(EncoderError::InsufficientData)));
    let mut rest = Bytes::from_static(&[1, 2]);
    assert!(matches!(decode_u8_from_tag(132, &mut rest), Err(EncoderError::Decode(_))));

    let mut rest = Bytes::from_static(&[0x34, 0x12, 7]);
    assert_eq!(decode_u16_from_tag(132, &mut rest).unwrap(), 0x1234);
    assert_eq!(rest.as_ref(), &[7]);
    let mut rest = Bytes::from_static(&[0x34]);
    assert!(matches!(decode_u16_from_tag(132, &mut rest), Err(EncoderError::InsufficientData)));
    let mut rest = Bytes::from_static(&[255]);
    assert_eq!(decode_u16_from_tag(131, &mut rest).unwrap(), 383);

    let mut rest = Bytes::from_static(&[0x78, 0x56, 0x34, 0x12]);
    assert_eq!(decode_u32_from_tag(133, &mut rest).unwrap(), 0x12345678);
    let mut rest = Bytes::from_static(&[1, 0, 0, 0, 0, 0, 0, 0]);
    assert!(matches!(decode_u32_from_tag(134, &mut rest), Err(EncoderError::Decode(_))));

    let mut rest = Bytes::from_static(&[8, 7, 6, 5, 4, 3, 2, 1]);
    assert_eq!(decode_u64_from_tag(134, &mut rest).unwrap(), 0x0102030405060708);
    let mut rest = Bytes::from_static(&[8, 7, 6, 5]);
    assert_eq!(decode_u64_from_tag(133, &mut rest).unwrap(), 0x05060708);

    let mut rest = Bytes::from(u128::MAX.to_le_bytes().to_vec());
    assert_eq!(decode_u128_from_tag(135, &mut rest).unwrap(), u128::MAX);
    let mut rest = Bytes::from_static(&[1; 15]);
    assert!(matches!(decode_u128_from_tag(135, &mut rest), Err(EncoderError::InsufficientData)));
    let mut rest = Bytes::from_static(&[]);
    assert!(matches!(decode_u128_from_tag(136, &mut rest), Err(EncoderError::Decode(_))));
}

#[test]
fn bare_little_endian_numbers() {
    let mut writer = BytesMut::new();
    write_u32_le(&mut writer, 0x12345678).unwrap();
    write_u64_le(&mut writer, 0x0102030405060708).unwrap();
    assert_eq!(writer.as_ref(), &[0x78, 0x56, 0x34, 0x12, 8, 7, 6, 5, 4, 3, 2, 1]);
    let mut reader = writer.freeze();
    assert_eq!(read_u32_le(&mut reader).unwrap(), 0x12345678);
    assert_eq!(read_u64_le(&mut reader).unwrap(), 0x0102030405060708);
    assert!(matches!(read_u32_le(&mut reader), Err(EncoderError::InsufficientData)));
    let mut short = Bytes::from_static(&[1, 2, 3, 4, 5, 6, 7]);
    assert!(matches!(read_u64_le(&mut short), Err(EncoderError::InsufficientData)));
    assert_eq!(short.len(), 7);
}

#[test]
fn field_identifiers() {
    let cases: Vec<(u64, Vec<u8>)> = vec![
        (0, vec![0]),
        (1, vec![1]),
        (250, vec![250]),
        (251, vec![255, 251, 0, 0, 0, 0, 0, 0, 0]),
        (255, vec![255, 255, 0, 0, 0, 0, 0, 0, 0]),
        (u64::MAX, vec![255; 9]),
    ];
    for (id, expected) in cases {
        let mut writer = BytesMut::new();
        write_field_id_optimized(&mut writer, id).unwrap();
        assert_eq!(writer.as_ref(), &expected[..]);
        let mut reader = writer.freeze();
        assert_eq!(read_field_id_optimized(&mut reader).unwrap(), id);
        assert_eq!(reader.len(), 0);
    }
    let mut reader = Bytes::from_static(&[252]);
    assert_eq!(read_field_id_optimized(&mut reader).unwrap(), 252);
    let mut reader = Bytes::from_static(&[]);
    assert!(matches!(read_field_id_optimized(&mut reader), Err(EncoderError::InsufficientData)));
    let mut reader = Bytes::from_static(&[255, 1, 2, 3]);
    assert!(matches!(read_field_id_optimized(&mut reader), Err(EncoderError::InsufficientData)));
}

#[test]
fn text_lengths_and_validity() {
    assert_eq!(bytes_of(&"".to_string()), vec![139]);
    assert_eq!(bytes_of(&"abc".to_string()), vec![142, b'a', b'b', b'c']);
    let forty = "x".repeat(40);
    let wire = bytes_of(&forty);
    assert_eq!(wire[0], 179);
    assert_eq!(wire.len(), 41);
    let forty_one = "x".repeat(41);
    let wire = bytes_of(&forty_one);
    assert_eq!(&wire[..2], &[180, 41]);
    assert_eq!(wire.len(), 43);
    let long = "é".repeat(200);
    let wire = bytes_of(&long);
    assert_eq!(&wire[..4], &[180, 132, 0x90, 0x01]);
    let mut reader = Bytes::from(wire);
    assert_eq!(String::decode(&mut reader).unwrap(), long);

    let mut reader = Bytes::from_static(&[141, 0xC3, 0x28]);
    assert!(matches!(String::decode(&mut reader), Err(EncoderError::Decode(_))));
    let mut reader = Bytes::from_static(&[141, b'a']);
    assert!(matches!(String::decode(&mut reader), Err(EncoderError::InsufficientData)));
    let mut reader = Bytes::from_static(&[181, 1, b'a']);
    assert!(matches!(String::decode(&mut reader), Err(EncoderError::Decode(_))));
    let mut reader = Bytes::from_static(&[180]);
    assert!(matches!(String::decode(&mut reader), Err(EncoderError::InsufficientData)));
}

#[test]
fn sequence_lengths() {
    for (len, expected) in [
        (0usize, vec![188u8]),
        (5, vec![193]),
        (6, vec![194, 6]),
        (300, vec![194, 131, 172]),
    ] {
        let mut writer = BytesMut::new();
        encode_vec_length(len, &mut writer).unwrap();
        assert_eq!(writer.as_ref(), &expected[..]);
        let mut reader = writer.freeze();
        let tag = reader.split_to(1)[0];
        assert_eq!(decode_vec_length(tag, &mut reader).unwrap(), len);
        assert_eq!(reader.len(), 0);
    }
    let mut reader = Bytes::from_static(&[]);
    assert!(matches!(decode_vec_length(195, &mut reader), Err(EncoderError::Decode(_))));
    assert!(matches!(decode_vec_length(194, &mut reader), Err(EncoderError::InsufficientData)));
    assert_eq!(bytes_of(&vec![1u16, 2, 300]), vec![191, 1, 2, 131, 172]);
    assert_eq!(bytes_of(&Vec::<i8>::new()), vec![188]);
}

#[test]
fn binary_form() {
    let mut writer = BytesMut::new();
    encode_vec_u8(&[1, 2, 3], &mut writer).unwrap();
    assert_eq!(writer.as_ref(), &[181, 3, 1, 2, 3]);
    assert_eq!(bytes_of(&vec![1u8, 2, 3]), vec![181, 3, 1, 2, 3]);
    let mut reader = Bytes::from_static(&[3, 1, 2, 3, 9]);
    assert_eq!(decode_vec_u8(&mut reader).unwrap(), vec![1, 2, 3]);
    assert_eq!(reader.as_ref(), &[9]);
    let mut reader = Bytes::from_static(&[3, 1, 2]);
    assert!(matches!(decode_vec_u8(&mut reader), Err(EncoderError::InsufficientData)));
    let mut reader = Bytes::from_static(&[191, 1, 2, 3]);
    assert!(matches!(<Vec<u8>>::decode(&mut reader), Err(EncoderError::Decode(_))));
    let mut reader = Bytes::from_static(&[]);
    assert!(matches!(<Vec<u8>>::decode(&mut reader), Err(EncoderError::InsufficientData)));
}

#[test]
fn booleans_and_options() {
    assert_eq!(bytes_of(&false), vec![0]);
    assert_eq!(bytes_of(&true), vec![1]);
    let mut reader = Bytes::from_static(&[2]);
    assert!(matches!(bool::decode(&mut reader), Err(EncoderError::Decode(_))));
    let mut reader = Bytes::from_static(&[]);
    assert!(matches!(bool::decode(&mut reader), Err(EncoderError::InsufficientData)));
    assert_eq!(bytes_of(&None::<u8>), vec![128]);
    assert_eq!(bytes_of(&Some(200u8)), vec![129, 131, 72]);
    let mut reader = Bytes::from_static(&[129]);
    assert!(matches!(<Option<u8>>::decode(&mut reader), Err(EncoderError::InsufficientData)));
    let mut reader = Bytes::from_static(&[130]);
    assert!(matches!(<Option<u8>>::decode(&mut reader), Err(EncoderError::Decode(_))));
}

#[test]
fn floats_cross_over_one_way() {
    let single = Float32::Single(2.5f32.to_bits());
    let double = Float64 { bits: 2.5f64.to_bits() };
    let mut wire = vec![137];
    wire.extend_from_slice(&2.5f32.to_le_bytes());
    assert_eq!(bytes_of(&single), wire);
    let mut wire = vec![138];
    wire.extend_from_slice(&2.5f64.to_le_bytes());
    assert_eq!(bytes_of(&double), wire);

    let mut reader = encode(&double).unwrap();
    let narrowed = match Float32::decode(&mut reader).unwrap() {
        Float32::Single(bits) => f32::from_bits(bits),
        Float32::Double(bits) => f64::from_bits(bits) as f32,
    };
    assert_eq!(narrowed, 2.5f32);
    let mut reader = encode(&single).unwrap();
    assert!(matches!(Float64::decode(&mut reader), Err(EncoderError::Decode(_))));
    let mut reader = Bytes::from_static(&[137, 1, 2]);
    assert!(matches!(Float32::decode(&mut reader), Err(EncoderError::InsufficientData)));
    assert!(Float32::Single((-0.0f32).to_bits()).is_default());
    assert!(Float64 { bits: (-0.0f64).to_bits() }.is_default());
    assert!(!Float32::Single(f32::NAN.to_bits()).is_default());
}

fn skipped(wire: &[u8]) -> Result<usize, EncoderError> {
    let mut bytes = wire.to_vec();
    bytes.extend_from_slice(&[0xEE, 0xEE]);
    let mut reader = Bytes::from(bytes);
    skip_value(&mut reader)?;
    assert!(reader.len() >= 2, "the skipper ran into what follows");
    Ok(wire.len() + 2 - reader.len())
}

#[test]
fn skipper_consumes_exactly_one_value() {
    let cases: Vec<Vec<u8>> = vec![
        vec![0],
        vec![127],
        vec![128],
        vec![129, 5],
        vec![129, 129, 128],
        vec![131, 9],
        vec![132, 1, 2],
        vec![133, 1, 2, 3, 4],
        vec![134, 1, 2, 3, 4, 5, 6, 7, 8],
        vec![135, 1, 2, 3, 4, 5, 6, 7, 8, 9, 10, 11, 12, 13, 14, 15, 16],
        vec![136, 4],
        vec![136, 133, 1, 2, 3, 4],
        vec![137, 1, 2, 3, 4],
        vec![138, 1, 2, 3, 4, 5, 6, 7, 8],
        vec![139],
        vec![142, b'a', 0xFF, b'c'],
        vec![180, 2, b'a', b'b'],
        vec![181, 3, 1, 2, 3],
        vec![182],
        vec![183, 0],
        vec![183, 1, 5, 255, 1, 2, 3, 4, 5, 6, 7, 8, 142, b'a', b'b', b'c', 0],
        vec![183, 7, 183, 9, 128, 0, 0],
        vec![184, 2, 5, 6],
        vec![185, 3],
        vec![185, 255, 1, 2, 3, 4, 5, 6, 7, 8],
        vec![186, 3, 1, 5, 0],
        vec![187, 3, 2, 5, 6],
        vec![188],
        vec![190, 1, 131, 0],
        vec![194, 6, 1, 2, 3, 4, 5, 6],
        vec![195, 0],
        vec![195, 2, 1, 139],
        vec![196, 2, 140, b'k', 1, 140, b'l', 188],
        vec![197, 0, 0],
        vec![197, 136, 4, 133, 1, 2, 3, 4],
        vec![198, 136, 131, 0],
        vec![199, 1, 2],
        vec![200, 136, 0, 2],
        vec![201, 1, 2, 3, 4, 5, 6, 7, 8, 9, 10, 11, 12, 13, 14, 15, 16],
        vec![202],
        vec![203, 1],
        vec![204, 0, 131, 1],
        vec![204, 1, 136, 1],
        vec![204, 2, 138, 1, 2, 3, 4, 5, 6, 7, 8],
        vec![205, 140, b'x'],
        vec![206, 2, 202, 203, 0],
        vec![207, 1, 140, b'k', 206, 0],
    ];
    for wire in cases {
        assert_eq!(skipped(&wire).unwrap(), wire.len(), "wrong length for {:?}", wire);
    }
}

#[test]
fn skipper_reports_bad_input() {
    let mut reader = Bytes::from_static(&[]);
    assert!(matches!(skip_value(&mut reader), Err(EncoderError::InsufficientData)));
    for tag in [130u8, 208, 255] {
        let mut reader = Bytes::from(vec![tag, 0, 0]);
        assert!(matches!(skip_value(&mut reader), Err(EncoderError::Decode(_))));
    }
    for wire in [
        vec![129],
        vec![132, 1],
        vec![135, 1, 2, 3],
        vec![142, b'a'],
        vec![181, 3, 1],
        vec![183, 1, 5],
        vec![183],
        vec![186, 3, 1],
        vec![190, 1],
        vec![195, 2, 1],
        vec![196, 1, 1],
        vec![201, 1, 2, 3],
        vec![204],
        vec![206, 1],
    ] {
        let mut reader = Bytes::from(wire.clone());
        assert!(
            matches!(skip_value(&mut reader), Err(EncoderError::InsufficientData)),
            "for {:?}",
            wire
        );
    }
    for wire in [vec![204, 3, 0], vec![203, 9], vec![205, 141, 0xFF, 0xFF], vec![207, 1, 1, 1]] {
        let mut reader = Bytes::from(wire.clone());
        assert!(matches!(skip_value(&mut reader), Err(EncoderError::Decode(_))), "for {:?}", wire);
    }
}

#[test]
fn skipper_agrees_with_the_encoder() {
    let shape = named_struct(
        "S",
        vec![
            field("a", 1, Shape::I64),
            field("b", 300, Shape::Optional(Box::new(Shape::Text))),
            field("c", 3, Shape::Vector(Box::new(Shape::Tuple(vec![Shape::U8, Shape::F32])))),
            field("d", 4, Shape::Mapping(Box::new(Shape::Text), Box::new(Shape::Blob))),
            field("e", 5, Shape::DateTime),
            field("f", 6, Shape::Uuid),
            field("g", 7, Shape::Decimal),
            field("h", 8, Shape::Date),
            field("i", 9, Shape::Time),
        ],
    );
    let value = Value::Record(vec![
        Value::Signed(-123456789),
        Value::Maybe(Some(Box::new(Value::Text("text".to_string())))),
        Value::List(vec![Value::Tuple(vec![Value::Unsigned(9), Value::F32(1.5f32.to_bits())])]),
        Value::Pairs(vec![(Value::Text("k".to_string()), Value::Blob(vec![1, 2, 3]))]),
        Value::DateTime { seconds: 0, nanos: 0 },
        Value::Uuid(7),
        Value::Decimal { mantissa: -5, scale: 1 },
        Value::Date { days: -1 },
        Value::Time { seconds: 1, nanos: 2 },
    ]);
    let mut buffer = BytesMut::new();
    derive_encode(&shape, &value, &mut buffer).unwrap();
    let wire = buffer.to_vec();
    assert_eq!(skipped(&wire).unwrap(), wire.len());

    let other = named_struct("T", vec![field("z", 100, Shape::Optional(Box::new(Shape::Bool)))]);
    let mut reader = Bytes::from(wire);
    assert_eq!(
        derive_decode(&other, &mut reader).unwrap(),
        Value::Record(vec![Value::Maybe(None)])
    );
    assert_eq!(reader.len(), 0);
}

#[test]
fn struct_and_enum_tags_are_checked() {
    let shape = named_struct("S", vec![field("a", 1, Shape::U8)]);
    let mut reader = Bytes::from_static(&[184, 1, 5]);
    match derive_decode(&shape, &mut reader) {
        Err(EncoderError::StructDecode(StructDecodeError::InvalidTag { expected, actual })) => {
            assert_eq!(expected, 183);
            assert_eq!(actual, 184);
        }
        other => panic!("unexpected result: {:?}", other),
    }
    let mut reader = Bytes::from_static(&[]);
    assert!(matches!(derive_decode(&shape, &mut reader), Err(EncoderError::InsufficientData)));
    let mut reader = Bytes::from_static(&[183, 1, 5]);
    assert!(matches!(derive_decode(&shape, &mut reader), Err(EncoderError::InsufficientData)));

    let choice = enumeration(
        "E",
        vec![
            variant("A", &id_attr(1), false, Fields::Unit),
            variant("B", &id_attr(2), false, Fields::Named(vec![field("x", 1, Shape::U8)])),
            variant(
                "C",
                &id_attr(3),
                false,
                Fields::Unnamed(vec![positional_field(0, "u8", Shape::U8)]),
            ),
        ],
    );
    let mut reader = Bytes::from_static(&[183, 1]);
    match derive_decode(&choice, &mut reader) {
        Err(EncoderError::EnumDecode(EnumDecodeError::UnknownTag { tag, enum_name })) => {
            assert_eq!(tag, 183);
            assert_eq!(enum_name, "E");
        }
        other => panic!("unexpected result: {:?}", other),
    }
    let mut reader = Bytes::from_static(&[185, 9]);
    match derive_decode(&choice, &mut reader) {
        Err(EncoderError::EnumDecode(EnumDecodeError::UnknownVariantId {
            variant_id,
            enum_name,
        })) => {
            assert_eq!(variant_id, 9);
            assert_eq!(enum_name, "E");
        }
        other => panic!("unexpected result: {:?}", other),
    }
    let mut reader = Bytes::from_static(&[185, 2]);
    assert!(matches!(
        derive_decode(&choice, &mut reader),
        Err(EncoderError::EnumDecode(EnumDecodeError::UnknownVariantId { variant_id: 2, .. }))
    ));
    let mut reader = Bytes::from_static(&[186, 2, 0]);
    match derive_decode(&choice, &mut reader) {
        Err(EncoderError::EnumDecode(EnumDecodeError::MissingRequiredField {
            field,
            enum_name,
            variant_name,
        })) => {
            assert_eq!(field, "x");
            assert_eq!(enum_name, "E");
            assert_eq!(variant_name, "B");
        }
        other => panic!("unexpected result: {:?}", other),
    }
    let mut reader = Bytes::from_static(&[186, 2, 1, 7, 0]);
    assert_eq!(
        derive_decode(&choice, &mut reader).unwrap(),
        Value::Variant(1, vec![Value::Unsigned(7)])
    );
    assert_eq!(reader.len(), 0);
    let mut reader = Bytes::from_static(&[186, 2, 1, 7]);
    assert!(matches!(derive_decode(&choice, &mut reader), Err(EncoderError::InsufficientData)));
    let mut reader = Bytes::from_static(&[186, 2]);
    assert!(matches!(derive_decode(&choice, &mut reader), Err(EncoderError::InsufficientData)));
    let mut reader = Bytes::from_static(&[187, 3, 2, 7, 8]);
    assert!(matches!(
        derive_decode(&choice, &mut reader),
        Err(EncoderError::EnumDecode(EnumDecodeError::FieldCountMismatch {
            expected: 1,
            actual: 2,
            ..
        }))
    ));
    let mut reader = Bytes::from_static(&[187, 3, 1, 7]);
    assert_eq!(
        derive_decode(&choice, &mut reader).unwrap(),
        Value::Variant(2, vec![Value::Unsigned(7)])
    );
}

#[test]
fn a_present_value_that_takes_no_bytes() {
    let unit = Shape::Struct(Box::new(StructDef {
        name: "Unit".to_string(),
        fields: Fields::Unit,
        disable_encode: false,
        disable_pack: false,
    }));
    let shape = Shape::Optional(Box::new(unit));
    let present = Value::Maybe(Some(Box::new(Value::Record(vec![]))));

    let mut buffer = BytesMut::new();
    pack_value(&shape, &present, &mut buffer).unwrap();
    assert_eq!(buffer.as_ref(), &[129]);
    let mut reader = buffer.freeze();
    assert_eq!(unpack_value(&shape, &mut reader).unwrap(), present);
    assert_eq!(reader.len(), 0);

    let mut buffer = BytesMut::new();
    encode_value(&shape, &present, &mut buffer).unwrap();
    assert_eq!(buffer.as_ref(), &[129, 182]);
    let mut reader = buffer.freeze();
    assert_eq!(decode_value(&shape, &mut reader).unwrap(), present);

    let mut reader = Bytes::from_static(&[129]);
    assert!(matches!(decode_value(&shape, &mut reader), Err(EncoderError::InsufficientData)));
    let mut reader = Bytes::from_static(&[129]);
    assert!(matches!(
        unpack_value(&Shape::Optional(Box::new(Shape::U8)), &mut reader),
        Err(EncoderError::InsufficientData)
    ));
}

#[test]
fn later_entry_replaces_earlier_one() {
    let shape = named_struct("S", vec![field("a", 1, Shape::U8)]);
    let mut reader = Bytes::from_static(&[183, 1, 5, 1, 6, 0]);
    assert_eq!(derive_decode(&shape, &mut reader).unwrap(), Value::Record(vec![Value::Unsigned(6)]));
}

fn refused(mode: Mode, shape: &Shape, value: &Value) -> String {
    let mut writer = BytesMut::new();
    let result = if mode == Mode::Tagged {
        derive_encode(shape, value, &mut writer)
    } else {
        derive_pack(shape, value, &mut writer)
    };
    assert_eq!(writer.len(), 0);
    match result {
        Err(EncoderError::Encode(text)) => text,
        other => panic!("unexpected result: {:?}", other),
    }
}

#[test]
fn repeated_and_zero_identifiers_are_refused_before_any_byte() {
    let repeated = named_struct("S", vec![field("a", 7, Shape::U8), field("b", 7, Shape::U8)]);
    let value = Value::Record(vec![Value::Unsigned(1), Value::Unsigned(2)]);
    assert!(!is_valid(Mode::Tagged, &repeated));
    assert!(is_valid(Mode::Packed, &repeated));
    let message = refused(Mode::Tagged, &repeated, &value);
    assert!(message.contains("0x0000000000000007"), "{}", message);
    assert!(message.contains("'S'"), "{}", message);
    assert!(message.contains("'a' and 'b'"), "{}", message);
    let mut reader = Bytes::from_static(&[183, 7, 1, 0]);
    assert!(matches!(derive_decode(&repeated, &mut reader), Err(EncoderError::Decode(_))));
    assert_eq!(reader.len(), 4);
    let mut writer = BytesMut::new();
    assert!(derive_pack(&repeated, &value, &mut writer).is_ok());

    let mut zero = named_field("a", "u8", Shape::U8, &Vec::new());
    zero.attrs.id = 0;
    let with_zero = named_struct("Z", vec![zero]);
    let one = Value::Record(vec![Value::Unsigned(1)]);
    assert!(!is_valid(Mode::Tagged, &with_zero));
    assert!(is_valid(Mode::Packed, &with_zero));
    let message = refused(Mode::Tagged, &with_zero, &one);
    assert!(message.contains("Field ID 0 is reserved as a terminator"), "{}", message);

    let twice = enumeration(
        "E",
        vec![
            variant("A", &id_attr(4), false, Fields::Unit),
            variant("B", &id_attr(4), false, Fields::Unit),
        ],
    );
    assert!(!is_valid(Mode::Tagged, &twice));
    assert!(!is_valid(Mode::Packed, &twice));
    let message = refused(Mode::Packed, &twice, &Value::Variant(0, vec![]));
    assert!(message.contains("0x0000000000000004"), "{}", message);
    assert!(message.contains("'E'"), "{}", message);

    let nested = Shape::Vector(Box::new(named_struct(
        "Outer",
        vec![field("inner", 1, Shape::Optional(Box::new(twice)))],
    )));
    assert!(!is_valid(Mode::Tagged, &nested));
    let mut writer = BytesMut::new();
    assert!(matches!(
        derive_encode(&Shape::U8, &Value::Unsigned(1), &mut writer),
        Err(EncoderError::Encode(_))
    ));
    assert_eq!(refused(Mode::Tagged, &Shape::U8, &Value::Unsigned(1)), "Only structs and enums can be derived.");
    assert!(is_valid(Mode::Tagged, &Shape::U8));
}

#[test]
fn a_fault_names_the_identifier_and_both_items() {
    let repeated = named_struct(
        "S",
        vec![field("a", 1, Shape::U8), field("b", 2, Shape::U8), field("c", 1, Shape::U8)],
    );
    match check_declaration(Mode::Tagged, &repeated) {
        Err(SchemaError::DuplicateFieldId { id, owner, first, second }) => {
            assert_eq!(id, 1);
            assert_eq!(owner, "S");
            assert_eq!(first, "a");
            assert_eq!(second, "c");
        }
        other => panic!("unexpected result: {:?}", other),
    }
    assert!(check_declaration(Mode::Packed, &repeated).is_ok());
    let value = Value::Record(vec![Value::Unsigned(1), Value::Unsigned(2), Value::Unsigned(3)]);
    assert_eq!(
        refused(Mode::Tagged, &repeated, &value),
        "Field ID (0x0000000000000001) is duplicated for 'S'. \
         Please specify a different ID for field 'a' and 'c'."
    );

    let twice = enumeration(
        "E",
        vec![
            variant("A", &id_attr(7), false, Fields::Unit),
            variant("B", &id_attr(7), false, Fields::Unit),
        ],
    );
    for mode in [Mode::Tagged, Mode::Packed] {
        match check_declaration(mode, &twice) {
            Err(SchemaError::DuplicateVariantId { id, owner, first, second }) => {
                assert_eq!(id, 7);
                assert_eq!(owner, "E");
                assert_eq!(first, "A");
                assert_eq!(second, "B");
            }
            other => panic!("unexpected result: {:?}", other),
        }
    }
    let mut reader = Bytes::from_static(&[185, 7]);
    match derive_decode(&twice, &mut reader) {
        Err(EncoderError::Decode(text)) => assert_eq!(
            text,
            "Variant ID (0x0000000000000007) is duplicated for enum 'E'. \
             Please specify a different ID for variant 'A' and 'B'."
        ),
        other => panic!("unexpected result: {:?}", other),
    }
    assert_eq!(reader.len(), 2);

    let mut zero = named_field("a", "u8", Shape::U8, &Vec::new());
    zero.attrs.id = 0;
    let with_zero = named_struct("Z", vec![field("first", 3, Shape::U8), zero]);
    match check_declaration(Mode::Tagged, &with_zero) {
        Err(SchemaError::ZeroFieldId { owner, field }) => {
            assert_eq!(owner, "Z");
            assert_eq!(field, "a");
        }
        other => panic!("unexpected result: {:?}", other),
    }
    assert_eq!(
        check_declaration(Mode::Tagged, &with_zero).unwrap_err().to_string(),
        "Field ID 0 is reserved as a terminator: field 'a' of 'Z'."
    );

    let inner = named_struct("Inner", vec![field("x", 5, Shape::U8), field("y", 5, Shape::U8)]);
    let outer = named_struct(
        "Outer",
        vec![field("list", 1, Shape::Vector(Box::new(Shape::Optional(Box::new(inner)))))],
    );
    match check_shape(Mode::Tagged, &Shape::Tuple(vec![Shape::U8, outer])) {
        Err(SchemaError::DuplicateFieldId { id, owner, first, second }) => {
            assert_eq!(id, 5);
            assert_eq!(owner, "Inner");
            assert_eq!(first, "x");
            assert_eq!(second, "y");
        }
        other => panic!("unexpected result: {:?}", other),
    }
    assert!(matches!(
        check_declaration(Mode::Tagged, &Shape::U8),
        Err(SchemaError::NotADeclaration)
    ));
    assert!(check_shape(Mode::Tagged, &Shape::U8).is_ok());
}

#[test]
fn values_must_be_of_the_shape() {
    let mut writer = BytesMut::new();
    let cases: Vec<(Shape, Value)> = vec![
        (Shape::U8, Value::Unsigned(256)),
        (Shape::U8, Value::Signed(1)),
        (Shape::I8, Value::Signed(128)),
        (Shape::I8, Value::Signed(-129)),
        (Shape::Bool, Value::Unsigned(1)),
        (Shape::Text, Value::Blob(vec![])),
        (Shape::F64, Value::F32(0)),
        (Shape::Vector(Box::new(Shape::U8)), Value::List(vec![])),
        (Shape::Vector(Box::new(Shape::U16)), Value::Blob(vec![])),
        (Shape::Vector(Box::new(Shape::U16)), Value::List(vec![Value::Unsigned(70000)])),
        (Shape::Array(Box::new(Shape::U8), 2), Value::List(vec![Value::Unsigned(1)])),
        (Shape::Tuple(vec![Shape::U8]), Value::Tuple(vec![])),
        (Shape::Optional(Box::new(Shape::U8)), Value::Unsigned(1)),
        (
            Shape::Mapping(Box::new(Shape::Text), Box::new(Shape::U8)),
            Value::Pairs(vec![(Value::Unsigned(1), Value::Unsigned(1))]),
        ),
        (named_struct("S", vec![field("a", 1, Shape::U8)]), Value::Record(vec![])),
        (
            enumeration("E", vec![variant("A", &id_attr(1), false, Fields::Unit)]),
            Value::Variant(1, vec![]),
        ),
    ];
    for (shape, value) in cases {
        let result = encode_value(&shape, &value, &mut writer);
        assert!(matches!(result, Err(EncoderError::Encode(_))), "for {:?}", value);
        assert_eq!(writer.len(), 0);
    }
    assert!(encode_value(&Shape::F32, &Value::F64(1), &mut writer).is_ok());
    assert!(
        encode_value(&Shape::Array(Box::new(Shape::U8), 2), &Value::List(vec![Value::Unsigned(1), Value::Unsigned(2)]), &mut writer)
            .is_ok()
    );
}

#[test]
fn arrays_check_their_length() {
    let three = Shape::Array(Box::new(Shape::U8), 3);
    let mut reader = Bytes::from_static(&[190, 1, 2]);
    assert!(matches!(decode_value(&three, &mut reader), Err(EncoderError::Decode(_))));
    let mut reader = Bytes::from_static(&[191, 1, 2, 3]);
    assert_eq!(
        decode_value(&three, &mut reader).unwrap(),
        Value::List(vec![Value::Unsigned(1), Value::Unsigned(2), Value::Unsigned(3)])
    );
    let mut reader = Bytes::from_static(&[181, 3, 1, 2, 3]);
    assert!(matches!(decode_value(&three, &mut reader), Err(EncoderError::Decode(_))));
}

#[test]
fn error_messages() {
    assert_eq!(EncoderError::InsufficientData.to_string(), "Insufficient data in buffer");
    assert_eq!(EncoderError::Encode("x".to_string()).to_string(), "Encode error: x");
    assert_eq!(EncoderError::Decode("y".to_string()).to_string(), "Decode error: y");
    assert_eq!(
        StructDecodeError::InvalidTag { expected: 183, actual: 7 }.to_string(),
        "Expected struct named tag (183), got 7"
    );
    assert_eq!(
        StructDecodeError::FieldCountMismatch {
            struct_name: "S".to_string(),
            expected: 2,
            actual: 10
        }
        .to_string(),
        "Field count mismatch for struct S: expected 2, got 10"
    );
    assert_eq!(
        StructDecodeError::StructureHashMismatch {
            struct_name: "S".to_string(),
            expected: 0xAB,
            actual: u64::MAX
        }
        .to_string(),
        "Structure hash mismatch for S: expected 0x00000000000000AB, got 0xFFFFFFFFFFFFFFFF"
    );
    assert_eq!(
        EncoderError::EnumDecode(EnumDecodeError::UnknownTag { tag: 9, enum_name: "E".to_string() })
            .to_string(),
        "Unknown enum tag: 9 for enum E"
    );
    assert_eq!(
        EnumDecodeError::UnknownVariantId { variant_id: 0x1F, enum_name: "E".to_string() }
            .to_string(),
        "Unknown variant ID: 0x000000000000001F for enum E"
    );
    assert_eq!(
        EnumDecodeError::UnknownUnitVariantId { variant_id: 1, enum_name: "E".to_string() }
            .to_string(),
        "Unknown unit variant ID: 0x0000000000000001 for enum E"
    );
    assert_eq!(
        EnumDecodeError::UnknownNamedVariantId { variant_id: 1, enum_name: "E".to_string() }
            .to_string(),
        "Unknown named variant ID: 0x0000000000000001 for enum E"
    );
    assert_eq!(
        EnumDecodeError::UnknownUnnamedVariantId { variant_id: 1, enum_name: "E".to_string() }
            .to_string(),
        "Unknown unnamed variant ID: 0x0000000000000001 for enum E"
    );
    assert_eq!(
        EnumDecodeError::MissingRequiredField {
            field: "f".to_string(),
            enum_name: "E".to_string(),
            variant_name: "V".to_string()
        }
        .to_string(),
        "Required field 'f' not found for variant E::V"
    );
    assert_eq!(
        EnumDecodeError::FieldCountMismatch {
            enum_name: "E".to_string(),
            variant_name: "V".to_string(),
            expected: 1,
            actual: 0
        }
        .to_string(),
        "Field count mismatch for variant E::V: expected 1, got 0"
    );
    assert_eq!(
        EnumDecodeError::StructureHashMismatch {
            enum_name: "E".to_string(),
            variant_name: "V".to_string(),
            expected: 1,
            actual: 2
        }
        .to_string(),
        "Structure hash mismatch for variant E::V: expected 0x0000000000000001, got 0x0000000000000002"
    );
    let mut reader = Bytes::from_static(&[200]);
    match u8::decode(&mut reader) {
        Err(e) => assert_eq!(e.to_string(), "Decode error: Unexpected tag for u8: 200"),
        Ok(_) => panic!("decoded"),
    }
    let mut reader = encode(&40000u16).unwrap();
    match i16::decode(&mut reader) {
        Err(e) => assert_eq!(e.to_string(), "Decode error: Value 40000 too large for i16"),
        Ok(_) => panic!("decoded"),
    }
}
