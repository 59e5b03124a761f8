use net_mc::{
    decode_record, decode_union, encode_record, encode_union, FieldDef, FieldValue, PacketError,
    RecordSchema, UnionSchema, UnionValue, VariantDef, WireFault, WireType,
};

fn field(name: &str, wire: WireType) -> FieldDef {
    FieldDef { name: String::from(name), wire }
}

fn sample_schema() -> RecordSchema {
    RecordSchema {
        name: String::from("Handshake"),
        fields: vec![
            field("protocol", WireType::VarInt),
            field("address", WireType::VarIntPrefixedBytes),
            field("token", WireType::ShortPrefixedBytes),
            field("tail", WireType::LengthInferredBytes),
        ],
    }
}

fn sample_values() -> Vec<FieldValue> {
    vec![
        FieldValue::VarInt(300),
        FieldValue::VarIntPrefixedBytes(vec![1, 2]),
        FieldValue::ShortPrefixedBytes(vec![9]),
        FieldValue::LengthInferredBytes(vec![7, 8]),
    ]
}

#[test]
fn record_wire_layout_is_declaration_order() {
    let schema = sample_schema();
    let bytes = encode_record(&schema, &sample_values()).unwrap();
    assert_eq!(
        bytes,
        vec![
            0xAC, 0x02, // VarInt(300)
            0x02, 1, 2, // VarInt length prefix, then the bytes
            0x00, 0x01, 9, // big-endian 16-bit count, then the bytes
            7, 8, // length-inferred tail
        ]
    );
}

#[test]
fn record_round_trip() {
    let schema = sample_schema();
    let values = sample_values();
    let bytes = encode_record(&schema, &values).unwrap();
    let back = decode_record(&schema, &bytes).unwrap();
    assert_eq!(back, values);
}

#[test]
fn record_round_trip_empty_tail() {
    let schema = sample_schema();
    let values = vec![
        FieldValue::VarInt(-1),
        FieldValue::VarIntPrefixedBytes(vec![]),
        FieldValue::ShortPrefixedBytes(vec![]),
        FieldValue::LengthInferredBytes(vec![]),
    ];
    let bytes = encode_record(&schema, &values).unwrap();
    let back = decode_record(&schema, &bytes).unwrap();
    assert_eq!(back, values);
}

#[test]
fn encode_rejects_wrong_shape() {
    let schema = sample_schema();
    let mut values = sample_values();
    values[1] = FieldValue::VarInt(1);
    assert_eq!(encode_record(&schema, &values), Err(PacketError::SchemaMismatch));
}

#[test]
fn encode_rejects_wrong_arity() {
    let schema = sample_schema();
    let values = vec![FieldValue::VarInt(1)];
    assert_eq!(encode_record(&schema, &values), Err(PacketError::SchemaMismatch));
}

#[test]
fn encode_rejects_oversized_short_prefixed() {
    let schema = RecordSchema {
        name: String::from("Blob"),
        fields: vec![field("body", WireType::ShortPrefixedBytes)],
    };
    let values = vec![FieldValue::ShortPrefixedBytes(vec![0; 65536])];
    assert_eq!(encode_record(&schema, &values), Err(PacketError::FieldTooLong));
    let values = vec![FieldValue::ShortPrefixedBytes(vec![0; 65535])];
    assert!(encode_record(&schema, &values).is_ok());
}

#[test]
fn decode_failure_names_packet_and_field() {
    let schema = sample_schema();
    // the address field's length prefix promises more bytes than remain
    let bytes = vec![0x07, 0x05, 1, 2];
    assert_eq!(
        decode_record(&schema, &bytes),
        Err(PacketError::FieldFault {
            packet: String::from("Handshake"),
            field: String::from("address"),
            fault: WireFault::UnexpectedEnd,
        })
    );
}

#[test]
fn decode_rejects_negative_length_prefix() {
    let schema = RecordSchema {
        name: String::from("Blob"),
        fields: vec![field("body", WireType::VarIntPrefixedBytes)],
    };
    // VarInt(-1) as a length prefix
    let bytes = vec![0xFF, 0xFF, 0xFF, 0xFF, 0x0F];
    assert_eq!(
        decode_record(&schema, &bytes),
        Err(PacketError::FieldFault {
            packet: String::from("Blob"),
            field: String::from("body"),
            fault: WireFault::NegativeLength,
        })
    );
}

fn sample_union() -> UnionSchema {
    UnionSchema {
        name: String::from("Action"),
        disc_wire: WireType::VarInt,
        variants: vec![
            VariantDef {
                name: String::from("Ping"),
                literal: FieldValue::VarInt(0),
                fields: vec![field("nonce", WireType::VarInt)],
            },
            VariantDef {
                name: String::from("Chat"),
                literal: FieldValue::VarInt(3),
                fields: vec![
                    field("sender", WireType::VarIntPrefixedBytes),
                    field("text", WireType::LengthInferredBytes),
                ],
            },
        ],
    }
}

#[test]
fn union_round_trip_first_variant() {
    let schema = sample_union();
    let value = UnionValue { variant: 0, values: vec![FieldValue::VarInt(77)] };
    let bytes = encode_union(&schema, &value).unwrap();
    assert_eq!(bytes, vec![0x00, 77]);
    let back = decode_union(&schema, &bytes).unwrap();
    assert_eq!(back.variant, 0);
    assert_eq!(back.values, vec![FieldValue::VarInt(77)]);
}

#[test]
fn union_round_trip_second_variant() {
    let schema = sample_union();
    let value = UnionValue {
        variant: 1,
        values: vec![
            FieldValue::VarIntPrefixedBytes(vec![65, 66]),
            FieldValue::LengthInferredBytes(vec![104, 105]),
        ],
    };
    let bytes = encode_union(&schema, &value).unwrap();
    let back = decode_union(&schema, &bytes).unwrap();
    assert_eq!(back.variant, 1);
    assert_eq!(back.values, value.values);
}

#[test]
fn union_rejects_unknown_discriminant() {
    let schema = sample_union();
    let bytes = vec![0x09, 77];
    assert_eq!(
        decode_union(&schema, &bytes),
        Err(PacketError::UnknownDiscriminant {
            union_name: String::from("Action"),
            value: FieldValue::VarInt(9),
        })
    );
}

#[test]
fn union_reports_discriminant_read_failure() {
    let schema = sample_union();
    assert_eq!(
        decode_union(&schema, &vec![]),
        Err(PacketError::DiscriminantFault {
            union_name: String::from("Action"),
            fault: WireFault::UnexpectedEnd,
        })
    );
}

#[test]
fn union_names_variant_field_on_failure() {
    let schema = sample_union();
    // Chat selected, but the sender prefix promises too many bytes
    let bytes = vec![0x03, 0x20, 1];
    assert_eq!(
        decode_union(&schema, &bytes),
        Err(PacketError::FieldFault {
            packet: String::from("Action"),
            field: String::from("sender"),
            fault: WireFault::UnexpectedEnd,
        })
    );
}

#[test]
fn union_encode_rejects_unregistered_variant() {
    let schema = sample_union();
    let value = UnionValue { variant: 5, values: vec![] };
    assert_eq!(encode_union(&schema, &value), Err(PacketError::SchemaMismatch));
}
