use protobuf::coded_output_stream::CodedOutputStream;
use protobuf::dynamic::{DynamicMessage, FieldValue};
use protobuf::error::ProtobufError;
use protobuf::field::{FieldDeclaration, FieldPlan, FieldType, Label, Syntax};
use protobuf::unknown::UnknownValue;

fn decode_hex(hex: &str) -> Vec<u8> {
    hex.split_whitespace()
        .map(|b| u8::from_str_radix(b, 16).unwrap())
        .collect()
}

fn plan(number: u32, label: Label, field_type: FieldType, oneof: Option<u32>, packed: bool) -> FieldPlan {
    FieldPlan::parse(
        FieldDeclaration {
            number,
            label,
            field_type,
            oneof_index: oneof,
            packed,
            is_map: false,
        },
        Syntax::Proto3,
    )
}

fn schema() -> Vec<FieldPlan> {
    vec![
        plan(1, Label::Optional, FieldType::Int32, None, false),
        plan(2, Label::Optional, FieldType::String, None, false),
        plan(3, Label::Repeated, FieldType::Sint32, None, true),
        plan(4, Label::Optional, FieldType::Message, None, false),
        plan(5, Label::Optional, FieldType::Int64, Some(0), false),
        plan(6, Label::Optional, FieldType::String, Some(0), false),
        plan(7, Label::Repeated, FieldType::Fixed32, None, false),
    ]
}

#[test]
fn dynamic_round_trip() {
    let plans = schema();
    let mut m = DynamicMessage::new(&plans);
    m.fields[0] = FieldValue::Singular(Some(UnknownValue::Varint(150)));
    m.fields[1] = FieldValue::Singular(Some(UnknownValue::LengthDelimited(b"testing".to_vec())));
    m.fields[2] = FieldValue::Repeated(vec![UnknownValue::Varint(1), UnknownValue::Varint(4)]);
    m.fields[3] = FieldValue::Singular(Some(UnknownValue::LengthDelimited(vec![0x08, 0x01])));
    m.fields[5] = FieldValue::Singular(Some(UnknownValue::LengthDelimited(b"a".to_vec())));
    m.fields[6] = FieldValue::Repeated(vec![UnknownValue::Fixed32(27), UnknownValue::Fixed32(28)]);
    m.unknown_fields.add_varint(9, 3);
    let bytes = m.write_to_bytes(&plans);
    assert_eq!(
        decode_hex(
            "08 96 01 12 07 74 65 73 74 69 6e 67 1a 02 01 04 22 02 08 01 32 01 61 \
             3d 1b 00 00 00 3d 1c 00 00 00 48 03"
        ),
        bytes
    );
    assert_eq!(m, DynamicMessage::parse_from_bytes(&plans, &bytes).unwrap());
}

#[test]
fn dynamic_defaults_are_not_written() {
    let plans = schema();
    let mut m = DynamicMessage::new(&plans);
    assert!(m.write_to_bytes(&plans).is_empty());
    m.fields[0] = FieldValue::Singular(Some(UnknownValue::Varint(0)));
    assert!(m.write_to_bytes(&plans).is_empty());
    m.fields[4] = FieldValue::Singular(Some(UnknownValue::Varint(0)));
    assert_eq!(decode_hex("28 00"), m.write_to_bytes(&plans));
}

#[test]
fn dynamic_accepts_packed_and_unpacked() {
    let plans = schema();
    let packed = DynamicMessage::parse_from_bytes(&plans, &decode_hex("1a 02 01 04")).unwrap();
    let unpacked = DynamicMessage::parse_from_bytes(&plans, &decode_hex("18 01 18 04")).unwrap();
    assert_eq!(packed, unpacked);
    let fixed = DynamicMessage::parse_from_bytes(&plans, &decode_hex("3a 04 1b 00 00 00 3d 1c 00 00 00")).unwrap();
    assert_eq!(
        FieldValue::Repeated(vec![UnknownValue::Fixed32(27), UnknownValue::Fixed32(28)]),
        fixed.fields[6]
    );
    assert!(DynamicMessage::parse_from_bytes(&plans, &decode_hex("3a 03 1b 00 00")).is_err());
}

#[test]
fn dynamic_last_wins_merge_and_oneof() {
    let plans = schema();
    let m = DynamicMessage::parse_from_bytes(
        &plans,
        &decode_hex("08 01 08 02 22 02 08 01 22 02 10 02 28 07 32 01 62"),
    )
    .unwrap();
    assert_eq!(FieldValue::Singular(Some(UnknownValue::Varint(2))), m.fields[0]);
    assert_eq!(
        FieldValue::Singular(Some(UnknownValue::LengthDelimited(vec![0x08, 0x01, 0x10, 0x02]))),
        m.fields[3]
    );
    assert_eq!(FieldValue::Singular(None), m.fields[4]);
    assert_eq!(
        FieldValue::Singular(Some(UnknownValue::LengthDelimited(b"b".to_vec()))),
        m.fields[5]
    );
}

#[test]
fn dynamic_wrong_wire_type_is_unknown() {
    let plans = schema();
    let m = DynamicMessage::parse_from_bytes(&plans, &decode_hex("0d 01 00 00 00")).unwrap();
    assert_eq!(FieldValue::Singular(None), m.fields[0]);
    assert_eq!(1, m.unknown_fields.len());
    assert_eq!(decode_hex("0d 01 00 00 00"), m.write_to_bytes(&plans));
}

const TYPES: [FieldType; 16] = [
    FieldType::Double,
    FieldType::Float,
    FieldType::Int32,
    FieldType::Int64,
    FieldType::Uint32,
    FieldType::Uint64,
    FieldType::Sint32,
    FieldType::Sint64,
    FieldType::Fixed32,
    FieldType::Fixed64,
    FieldType::Sfixed32,
    FieldType::Sfixed64,
    FieldType::Bool,
    FieldType::String,
    FieldType::Bytes,
    FieldType::Enum,
];

fn types_schema(label: Label, packed: bool) -> Vec<FieldPlan> {
    TYPES
        .iter()
        .enumerate()
        .map(|(i, t)| {
            let scalar = !matches!(t, FieldType::String | FieldType::Bytes);
            FieldPlan::parse(
                FieldDeclaration {
                    number: i as u32 + 1,
                    label,
                    field_type: *t,
                    oneof_index: None,
                    packed: packed && scalar,
                    is_map: false,
                },
                Syntax::Proto2,
            )
        })
        .collect()
}

fn zigzag32(v: i32) -> u64 {
    ((v << 1) ^ (v >> 31)) as u32 as u64
}

fn zigzag64(v: i64) -> u64 {
    ((v << 1) ^ (v >> 63)) as u64
}

fn test_serialize_deserialize_no_hex(plans: &[FieldPlan], m: &DynamicMessage) {
    let bytes = m.write_to_bytes(plans);
    let parsed = DynamicMessage::parse_from_bytes(plans, &bytes).unwrap();
    assert_eq!(*m, parsed);
    assert_eq!(bytes, parsed.write_to_bytes(plans));
}

const BLUE: u64 = 2;
const GREEN: u64 = 3;

#[test]
fn test_types_singular() {
    let plans = types_schema(Label::Optional, false);
    let mut message = DynamicMessage::new(&plans);
    let values = vec![
        UnknownValue::Fixed64(19f64.to_bits()),
        UnknownValue::Fixed32(20f32.to_bits()),
        UnknownValue::Varint(21),
        UnknownValue::Varint(-22i64 as u64),
        UnknownValue::Varint(23),
        UnknownValue::Varint(24),
        UnknownValue::Varint(zigzag32(-25)),
        UnknownValue::Varint(zigzag64(26)),
        UnknownValue::Fixed32(27),
        UnknownValue::Fixed64(28),
        UnknownValue::Fixed32(-29i32 as u32),
        UnknownValue::Fixed64(30),
        UnknownValue::Varint(1),
        UnknownValue::LengthDelimited("thirty two".as_bytes().to_vec()),
        UnknownValue::LengthDelimited([33u8, 34].to_vec()),
        UnknownValue::Varint(BLUE),
    ];
    for (i, v) in values.into_iter().enumerate() {
        message.fields[i] = FieldValue::Singular(Some(v));
    }
    test_serialize_deserialize_no_hex(&plans, &message);
}

fn repeated_values(sint32: &[i32], sint64: &[i64]) -> Vec<Vec<UnknownValue>> {
    vec![
        vec![UnknownValue::Fixed64(19f64.to_bits()), UnknownValue::Fixed64(20f64.to_bits())],
        vec![UnknownValue::Fixed32(20f32.to_bits())],
        vec![UnknownValue::Varint(21), UnknownValue::Varint(-22i64 as u64), UnknownValue::Varint(23)],
        vec![UnknownValue::Varint(22)],
        vec![UnknownValue::Varint(23), UnknownValue::Varint(24)],
        vec![UnknownValue::Varint(24)],
        sint32.iter().map(|v| UnknownValue::Varint(zigzag32(*v))).collect(),
        sint64.iter().map(|v| UnknownValue::Varint(zigzag64(*v))).collect(),
        vec![UnknownValue::Fixed32(27)],
        vec![UnknownValue::Fixed64(28)],
        vec![UnknownValue::Fixed32(29), UnknownValue::Fixed32(-30i32 as u32)],
        vec![UnknownValue::Fixed64(30)],
        vec![UnknownValue::Varint(1), UnknownValue::Varint(1)],
        vec![
            UnknownValue::LengthDelimited("thirty two".as_bytes().to_vec()),
            UnknownValue::LengthDelimited("thirty three".as_bytes().to_vec()),
        ],
        vec![
            UnknownValue::LengthDelimited([33u8, 34].to_vec()),
            UnknownValue::LengthDelimited([35u8].to_vec()),
        ],
        vec![UnknownValue::Varint(BLUE), UnknownValue::Varint(GREEN)],
    ]
}

#[test]
fn test_types_repeated() {
    let plans = types_schema(Label::Repeated, false);
    let mut message = DynamicMessage::new(&plans);
    for (i, vs) in repeated_values(&[25], &[26, -27]).into_iter().enumerate() {
        message.fields[i] = FieldValue::Repeated(vs);
    }
    test_serialize_deserialize_no_hex(&plans, &message);
}

#[test]
fn test_types_repeated_packed() {
    let plans = types_schema(Label::Repeated, true);
    let mut message = DynamicMessage::new(&plans);
    for (i, vs) in repeated_values(&[-25, 26], &[26, -27, 28]).into_iter().enumerate() {
        message.fields[i] = FieldValue::Repeated(vs);
    }
    test_serialize_deserialize_no_hex(&plans, &message);
}

#[test]
fn dynamic_accessors_size_and_stream() {
    let plans = schema();
    let mut m = DynamicMessage::new(&plans);
    m.set_field(&plans, 4, UnknownValue::Varint(7));
    m.set_field(&plans, 5, UnknownValue::LengthDelimited(b"x".to_vec()));
    assert_eq!(FieldValue::Singular(None), m.fields[4]);
    assert_eq!(
        Some(UnknownValue::LengthDelimited(b"x".to_vec())),
        m.take_field(&plans, 5)
    );
    assert_eq!(FieldValue::Singular(None), m.fields[5]);
    m.fields[2] = FieldValue::Repeated(vec![UnknownValue::Varint(2)]);
    m.set_field(&plans, 0, UnknownValue::Varint(3));
    let bytes = m.write_to_bytes(&plans);
    assert_eq!(bytes.len() as u64, m.compute_size(&plans));
    let mut os = CodedOutputStream::vec(Vec::new());
    m.write_to(&plans, &mut os).unwrap();
    assert_eq!(bytes, os.into_inner());
    let mut small = CodedOutputStream::bytes(vec![0; 1]);
    assert_eq!(Err(ProtobufError::BufferTooSmall), m.write_to(&plans, &mut small));
    m.clear_field(&plans, 2);
    assert_eq!(FieldValue::Repeated(vec![]), m.fields[2]);
}

#[test]
fn dynamic_errors_are_typed() {
    let plans = schema();
    assert_eq!(
        Err(ProtobufError::Truncated),
        DynamicMessage::parse_from_bytes(&plans, &decode_hex("3a 03 1b 00 00"))
    );
    assert_eq!(
        Err(ProtobufError::InvalidTag),
        DynamicMessage::parse_from_bytes(&plans, &decode_hex("00"))
    );
    assert_eq!(
        Err(ProtobufError::MalformedVarint),
        DynamicMessage::parse_from_bytes(&plans, &decode_hex("08 ff ff ff ff ff ff ff ff ff ff 01"))
    );
    assert_eq!(
        Err(ProtobufError::UnmatchedGroup),
        DynamicMessage::parse_from_bytes(&plans, &decode_hex("0c"))
    );
}
