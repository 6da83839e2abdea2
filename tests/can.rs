use std::collections::HashMap;

use telegraph::can::{decode_fields, perxml_type, CanConnection, CanError, DataType, RawValue};
use telegraph::schema::{CanIdConfig, CanValueConfig, Tree};

#[test]
fn can_bools_then_u16_is_misaligned() {
    // three booleans leave the cursor at bit 3 of byte 0; a u16 must start on
    // a byte boundary, so the layout is refused
    let layout = vec![
        (DataType::Bool, 1u16),
        (DataType::Bool, 2),
        (DataType::Bool, 3),
        (DataType::U16, 4),
    ];
    let data = [0b0000_0101u8, 0x34, 0x12];
    assert_eq!(decode_fields(&layout, &data), Err(CanError::Misaligned));
}

#[test]
fn can_eight_bools_then_u16() {
    let mut layout: Vec<(DataType, u16)> = (0..8).map(|i| (DataType::Bool, i)).collect();
    layout.push((DataType::U16, 8));
    let data = [0b1000_0101u8, 0x34, 0x12];
    let out = decode_fields(&layout, &data).unwrap();
    let bools: Vec<bool> = out[..8]
        .iter()
        .map(|(_, v)| matches!(v, RawValue::Bool(true)))
        .collect();
    assert_eq!(bools, vec![true, false, true, false, false, false, false, true]);
    assert_eq!(out[8], (8, RawValue::U16(0x1234)));
}

#[test]
fn can_fixed_width_little_endian() {
    let layout = vec![
        (DataType::U8, 1u16),
        (DataType::I16, 2),
        (DataType::U32, 3),
        (DataType::I8, 4),
    ];
    let data = [0xFE, 0xFE, 0xFF, 0x78, 0x56, 0x34, 0x12, 0x80];
    let out = decode_fields(&layout, &data).unwrap();
    assert_eq!(
        out,
        vec![
            (1, RawValue::U8(0xFE)),
            (2, RawValue::I16(-2)),
            (3, RawValue::U32(0x1234_5678)),
            (4, RawValue::I8(-128)),
        ]
    );
}

#[test]
fn can_sixty_four_bit_and_floats() {
    let layout = vec![(DataType::I64, 1u16)];
    let data = (-5i64).to_le_bytes();
    assert_eq!(decode_fields(&layout, &data).unwrap(), vec![(1, RawValue::I64(-5))]);
    let layout = vec![(DataType::F32, 2u16)];
    let data = 1.5f32.to_le_bytes();
    assert_eq!(decode_fields(&layout, &data).unwrap(), vec![(2, RawValue::F32(1.5f32.to_bits()))]);
    let layout = vec![(DataType::F64, 3u16)];
    let data = (-0.25f64).to_le_bytes();
    assert_eq!(decode_fields(&layout, &data).unwrap(), vec![(3, RawValue::F64((-0.25f64).to_bits()))]);
}

#[test]
fn can_truncated_payload() {
    let layout = vec![(DataType::U32, 1u16)];
    assert_eq!(decode_fields(&layout, &[1, 2, 3]), Err(CanError::Truncated));
    let layout = vec![(DataType::Bool, 1u16)];
    assert_eq!(decode_fields(&layout, &[]), Err(CanError::Truncated));
}

#[test]
fn can_unsupported_formats() {
    assert_eq!(decode_fields(&vec![(DataType::Str, 1u16)], &[0; 8]), Err(CanError::Unsupported));
    assert_eq!(decode_fields(&vec![(DataType::ByteArray, 1u16)], &[0; 8]), Err(CanError::Unsupported));
}

#[test]
fn can_connection_stores_values() {
    let mut m = HashMap::new();
    m.insert(0x100u32, vec![(DataType::U8, 7u16), (DataType::U8, 8)]);
    let mut conn = CanConnection::new(Tree::new("t".to_string()), m);
    assert_eq!(conn.poll(7), None);
    assert_eq!(conn.parse(0x100, &[3, 4]), Ok(()));
    assert_eq!(conn.poll(7), Some(&RawValue::U8(3)));
    assert_eq!(conn.poll(8), Some(&RawValue::U8(4)));
    assert_eq!(conn.parse(0x100, &[9, 10]), Ok(()));
    assert_eq!(conn.poll(7), Some(&RawValue::U8(9)));
}

#[test]
fn can_connection_unknown_id() {
    let mut conn = CanConnection::new(Tree::new("t".to_string()), HashMap::new());
    assert_eq!(conn.parse(0x200, &[1]), Err(CanError::UnknownId));
    assert_eq!(conn.poll(0), None);
}

#[test]
fn can_connection_bad_frame_stores_nothing() {
    let mut m = HashMap::new();
    m.insert(1u32, vec![(DataType::U8, 1u16), (DataType::U32, 2)]);
    let mut conn = CanConnection::new(Tree::new("t".to_string()), m);
    assert_eq!(conn.parse(1, &[5, 1]), Err(CanError::Truncated));
    assert_eq!(conn.poll(1), None);
}

#[test]
fn perxml_type_names() {
    assert_eq!(perxml_type("bool"), Some(DataType::Bool));
    assert_eq!(perxml_type("uint16"), Some(DataType::U16));
    assert_eq!(perxml_type("int64"), Some(DataType::I64));
    assert_eq!(perxml_type("float"), Some(DataType::F32));
    assert_eq!(perxml_type("dobule"), Some(DataType::F64));
    assert_eq!(perxml_type("string"), None);
    assert_eq!(DataType::parse_perxml("int8"), DataType::I8);
    assert_eq!(DataType::parse_perxml("uint32"), DataType::U32);
}

#[test]
fn raw_value_into_value() {
    let v = RawValue::U16(7).into_value();
    assert_eq!(v.uint16, Some(7));
    assert!(v.uint8.is_none() && v.boolean.is_none() && v.int16.is_none());
    let v = RawValue::Bool(true).into_value();
    assert_eq!(v.boolean, Some(true));
    let v = RawValue::F32(1.0f32.to_bits()).into_value();
    assert_eq!(v.float32, Some(1.0f32.to_bits()));
}

#[test]
fn can_connection_has_no_actions() {
    let conn = CanConnection::new(Tree::new("t".to_string()), HashMap::new());
    assert_eq!(conn.send_action(1, RawValue::Bool(true)), Err(CanError::Unsupported));
}

#[test]
fn can_connection_from_config() {
    let ids = vec![CanIdConfig {
        id: 0x42,
        values: vec![
            CanValueConfig {
                access_string: "brakes.front".to_string(),
                ty: "bool".to_string(),
                unit: None,
                enum_values: None,
                name: "Front".to_string(),
                description: String::new(),
            },
            CanValueConfig {
                access_string: "brakes.pressure".to_string(),
                ty: "uint8".to_string(),
                unit: Some("bar".to_string()),
                enum_values: None,
                name: "Pressure".to_string(),
                description: String::new(),
            },
        ],
    }];
    let mut conn = CanConnection::from_config("can_tree".to_string(), &ids).unwrap();
    assert_eq!(conn.tree().len(), 4);
    // one bool, then the u8 misaligned at bit 1
    assert_eq!(conn.parse(0x42, &[1, 9]), Err(CanError::Misaligned));
}
