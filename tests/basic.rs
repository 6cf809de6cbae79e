use protobuf::coded_input_stream::CodedInputStream;
use protobuf::coded_output_stream::CodedOutputStream;
use protobuf::doctest_pb::MyMessage;
use protobuf::enums::{EnumDescriptor, EnumDescriptorProto, EnumValueDescriptorProto};
use protobuf::error::ProtobufError;
use protobuf::message::{write_to_bytes, Message};
use protobuf::recursive_message::RecursiveMessage;
use protobuf::unknown::UnknownValue;
use protobuf::well_known_types::Duration;
use protobuf::wire_format::WireType;

fn decode_hex(hex: &str) -> Vec<u8> {
    hex.split_whitespace()
        .map(|b| u8::from_str_radix(b, 16).unwrap())
        .collect()
}

fn test_serialize_deserialize_duration(hex: &str, msg: &Duration) {
    let expected = decode_hex(hex);
    assert_eq!(expected, write_to_bytes(msg));
    assert_eq!(expected.len() as u64, msg.compute_size());
    let parsed = Duration::parse_from_bytes(&expected).unwrap();
    assert_eq!(*msg, parsed);
}

fn test_serialize_deserialize_my_message(hex: &str, msg: &MyMessage) {
    let expected = decode_hex(hex);
    assert_eq!(expected, write_to_bytes(msg));
    assert_eq!(expected.len() as u64, msg.compute_size());
    let parsed = MyMessage::parse_from_bytes(&expected).unwrap();
    assert_eq!(*msg, parsed);
}

#[test]
fn test1() {
    let mut test1 = Duration::new();
    test1.seconds = 150;
    test_serialize_deserialize_duration("08 96 01", &test1);
}

#[test]
fn test2() {
    let mut test2 = MyMessage::new();
    test2
        .unknown_fields
        .add_length_delimited(2, "testing".as_bytes().to_vec());
    test_serialize_deserialize_my_message("12 07 74 65 73 74 69 6e 67", &test2);
}

#[test]
fn test3() {
    let mut test1 = Duration::new();
    test1.seconds = 150;
    let mut os = CodedOutputStream::vec(Vec::new());
    os.write_message(3, &test1).unwrap();
    let bytes = os.into_inner();
    assert_eq!(decode_hex("1a 03 08 96 01"), bytes);

    let test3 = MyMessage::parse_from_bytes(&bytes).unwrap();
    assert_eq!(1, test3.unknown_fields.len());
    let (number, value) = test3.unknown_fields.get_at(0);
    assert_eq!(3, *number);
    match value {
        UnknownValue::LengthDelimited(payload) => {
            assert_eq!(test1, Duration::parse_from_bytes(payload).unwrap());
        }
        _ => panic!("expected a length-delimited field"),
    }
}

#[test]
fn test4() {
    let mut os = CodedOutputStream::vec(Vec::new());
    os.write_repeated_packed_int32(4, &[3i32, 270, 86942]).unwrap();
    let bytes = os.into_inner();
    assert_eq!(decode_hex("22 06 03 8E 02 9E A7 05"), bytes);

    let mut is = CodedInputStream::from_bytes(&bytes);
    let tag = is.read_tag().unwrap();
    assert_eq!(4, tag.field_number);
    let mut d = Vec::new();
    is.read_repeated_uint64_into(tag.wire_type, &mut d).unwrap();
    assert_eq!(vec![3u64, 270, 86942], d);
    assert!(is.eof());
}

#[test]
fn test_recursion_limit() {
    let mut test = RecursiveMessage::new();
    for _ in 0..10 {
        let mut t = RecursiveMessage::new();
        t.child = Some(Box::new(test));
        test = t;
    }

    let bytes = write_to_bytes(&test);
    let cases = vec![(None, false), (Some(9), true), (Some(10), true), (Some(11), false)];

    for (limit, has_err) in cases {
        let mut is = CodedInputStream::from_bytes(&bytes);
        if let Some(limit) = limit {
            is.set_recursion_limit(limit);
        }
        let mut t = RecursiveMessage::new();
        let res = t.merge_from(&mut is);
        assert_eq!(res.is_err(), has_err, "limit: {:?}", limit);
        if has_err {
            assert_eq!(Err(ProtobufError::RecursionLimitExceeded), res);
        }
        if !has_err {
            assert_eq!(t, test, "limit: {:?}", limit);
        }
    }
}

#[test]
fn test_end_by_negative_int() {
    let mut test = Duration::new();
    test.seconds = -1;
    test_serialize_deserialize_duration("08 ff ff ff ff ff ff ff ff ff 01", &test);
}

#[test]
fn test_empty() {
    test_serialize_deserialize_my_message("", &MyMessage::new());
}

#[test]
fn test_read_junk() {
    assert!(Duration::parse_from_bytes(&decode_hex("00")).is_err());
}

#[test]
fn test_unknown_fields_length_delimited() {
    let mut message = Duration::new();
    message.seconds = 150;
    message
        .unknown_fields
        .add_length_delimited(4, [0x10u8, 0x20, 0x30].to_vec());
    test_serialize_deserialize_duration("08 96 01 22 03 10 20 30", &message);
}

#[test]
fn test_unknown_fields_fixed32() {
    let mut message = Duration::new();
    message.seconds = 150;
    message.unknown_fields.add_fixed32(4, 0x01020304);
    message.unknown_fields.add_fixed32(4, 0xA1A2A3A4);
    test_serialize_deserialize_duration("08 96 01 25 04 03 02 01 25 A4 A3 A2 A1", &message);
}

#[test]
fn test_enum_descriptor() {
    let proto = EnumDescriptorProto {
        name: "TestEnumDescriptor".to_string(),
        value: vec![
            EnumValueDescriptorProto { name: "RED".to_string(), number: 1 },
            EnumValueDescriptorProto { name: "BLUE".to_string(), number: 2 },
            EnumValueDescriptorProto { name: "GREEN".to_string(), number: 3 },
        ],
    };
    let d = EnumDescriptor::new(proto, "basic.TestEnumDescriptor".to_string());
    assert_eq!("TestEnumDescriptor", d.name());
    assert_eq!("GREEN", d.value_by_name("GREEN").unwrap().name());
}

#[test]
fn test_invalid_tag() {
    // 01 is invalid tag, because field number for that tag would be 0
    let bytes = decode_hex("01 02 03");
    let r = MyMessage::parse_from_bytes(&bytes);
    assert!(r.is_err());
}

#[test]
fn test_truncated_no_varint() {
    // 08 is valid tag that should be followed by varint
    let bytes = decode_hex("08");
    let r = Duration::parse_from_bytes(&bytes);
    assert!(r.is_err());
    assert_eq!(Err(ProtobufError::Truncated), r);
}

#[test]
fn test_truncated_middle_of_varint() {
    // 08 is field 1, wire type varint
    // 96 is non-final byte of varint
    let bytes = decode_hex("08 96");
    let r = Duration::parse_from_bytes(&bytes);
    assert!(r.is_err());
}

#[test]
fn test_truncated_middle_of_length_delimited() {
    // 0a is field 1, wire type length delimited
    // 03 is length 3
    let bytes = decode_hex("0a 03 10");
    let r = Duration::parse_from_bytes(&bytes);
    assert!(r.is_err());
}

#[test]
fn test_truncated_repeated_packed() {
    // 12 is field 2, wire type length delimited
    // 04 is length 4
    let bytes = decode_hex("12 04 10 20");
    let r = Duration::parse_from_bytes(&bytes);
    assert!(r.is_err());
}

#[test]
fn test_bug_sint() {
    {
        let mut os = CodedOutputStream::vec(Vec::new());
        os.write_sint32(1, -1).unwrap();
        let bytes = os.into_inner();
        assert_eq!(decode_hex("08 01"), bytes);
        let mut is = CodedInputStream::from_bytes(&bytes);
        let tag = is.read_tag().unwrap();
        assert_eq!((1, WireType::Varint), (tag.field_number, tag.wire_type));
        assert_eq!(-1, is.read_sint32().unwrap());
    }
    {
        let mut os = CodedOutputStream::vec(Vec::new());
        os.write_sint64(2, -2).unwrap();
        let bytes = os.into_inner();
        assert_eq!(decode_hex("10 03"), bytes);
        let mut is = CodedInputStream::from_bytes(&bytes);
        let tag = is.read_tag().unwrap();
        assert_eq!((2, WireType::Varint), (tag.field_number, tag.wire_type));
        assert_eq!(-2, is.read_sint64().unwrap());
    }
}

#[test]
fn test_serialize_too_large_message() {
    let mut test1 = Duration::new();
    test1.seconds = 150;
    let len = test1.compute_size();
    let bytes = vec![0; len as usize - 1];
    let mut s = CodedOutputStream::bytes(bytes);
    assert_eq!(
        Err(ProtobufError::BufferTooSmall),
        test1.write_to_with_cached_sizes(&mut s)
    );
}
