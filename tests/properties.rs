use protobuf::coded_input_stream::CodedInputStream;
use protobuf::coded_output_stream::CodedOutputStream;
use protobuf::doctest_pb::MyMessage;
use protobuf::enums::{EnumDescriptor, EnumDescriptorProto, EnumGen, EnumOrUnknown, EnumValueDescriptorProto};
use protobuf::oneof::{need_boxed, OneofDescriptor, OneofDescriptorProto};
use protobuf::recursive_message::RecursiveMessage;
use protobuf::error::ProtobufError;
use protobuf::field::{
    check_initialized, field_type_size, FieldDeclaration, FieldKind, FieldPlan, FieldType, Label, OptionKind,
    SingularFieldFlag, Syntax,
};
use protobuf::message::{write_to_bytes, Message};
use protobuf::unknown::{UnknownFields, UnknownValue};
use protobuf::varint::{
    compute_raw_varint64_size, decode_zig_zag_32, decode_zig_zag_64, encode_varint32,
    encode_varint64, encode_zig_zag_32, encode_zig_zag_64,
};
use protobuf::well_known_types::{Duration, Timestamp};
use protobuf::wire_format::{Tag, WireType};

fn decode_hex(hex: &str) -> Vec<u8> {
    hex.split_whitespace()
        .map(|b| u8::from_str_radix(b, 16).unwrap())
        .collect()
}

#[test]
fn varint_boundaries() {
    assert_eq!(vec![0x00], encode_varint64(0));
    assert_eq!(vec![0x96, 0x01], encode_varint64(150));
    assert_eq!(vec![0xff, 0xff, 0xff, 0xff, 0x0f], encode_varint32(u32::MAX));
    assert_eq!(decode_hex("ff ff ff ff ff ff ff ff ff 01"), encode_varint64(u64::MAX));
    assert_eq!(1, compute_raw_varint64_size(127));
    assert_eq!(2, compute_raw_varint64_size(128));
    assert_eq!(10, compute_raw_varint64_size(u64::MAX));
}

#[test]
fn varint_reads_back() {
    let mut is = CodedInputStream::from_bytes(&decode_hex("96 01 ff ff ff ff ff ff ff ff ff 01 00"));
    assert_eq!(Ok(150), is.read_raw_varint64());
    assert_eq!(Ok(u64::MAX), is.read_raw_varint64());
    assert_eq!(Ok(0), is.read_raw_varint64());
    assert!(is.eof());
}

#[test]
fn ten_byte_varint_with_continuation_is_malformed() {
    let mut is = CodedInputStream::from_bytes(&decode_hex("ff ff ff ff ff ff ff ff ff ff 01"));
    assert_eq!(Err(ProtobufError::MalformedVarint), is.read_raw_varint64());
}

#[test]
fn varint_cut_short_is_truncated() {
    let mut is = CodedInputStream::from_bytes(&decode_hex("96"));
    assert_eq!(Err(ProtobufError::Truncated), is.read_raw_varint64());
}

#[test]
fn zigzag_boundaries() {
    assert_eq!(1, encode_zig_zag_32(-1));
    assert_eq!(2, encode_zig_zag_32(1));
    assert_eq!(3, encode_zig_zag_32(-2));
    assert_eq!(1, encode_zig_zag_64(-1));
    assert_eq!(2, encode_zig_zag_64(1));
    assert_eq!(3, encode_zig_zag_64(-2));
    assert_eq!(u32::MAX, encode_zig_zag_32(i32::MIN));
    assert_eq!(u64::MAX, encode_zig_zag_64(i64::MIN));
    assert_eq!(i32::MIN, decode_zig_zag_32(u32::MAX));
    assert_eq!(-2, decode_zig_zag_64(3));
}

#[test]
fn tag_value_and_validation() {
    assert_eq!(8, Tag::make(1, WireType::Varint).value());
    assert_eq!(0x1a, Tag::make(3, WireType::LengthDelimited).value());
    assert_eq!(None, Tag::new(0x02));
    assert_eq!(None, Tag::new(0x0e));
    let t = Tag::new(0x25).unwrap();
    assert_eq!((4, WireType::Fixed32), (t.field_number, t.wire_type));
}

#[test]
fn tag_with_field_number_zero_is_invalid() {
    let mut is = CodedInputStream::from_bytes(&decode_hex("01 02 03"));
    assert_eq!(Err(ProtobufError::InvalidTag), is.read_tag());
}

#[test]
fn truncated_tag_value() {
    let mut is = CodedInputStream::from_bytes(&decode_hex("08"));
    is.read_tag().unwrap();
    assert_eq!(Err(ProtobufError::Truncated), is.read_int32());
}

#[test]
fn round_trip_extremes() {
    let mut d = Duration::new();
    d.seconds = i64::MIN;
    d.nanos = i32::MIN;
    d.unknown_fields.add_varint(5, u64::MAX);
    d.unknown_fields.add_length_delimited(6, Vec::new());
    d.unknown_fields.add_fixed64(7, u64::MAX);
    let bytes = write_to_bytes(&d);
    assert_eq!(d, Duration::parse_from_bytes(&bytes).unwrap());

    let zero = Duration::new();
    assert!(write_to_bytes(&zero).is_empty());
    assert_eq!(zero, Duration::parse_from_bytes(&[]).unwrap());

    let mut t = Timestamp::new();
    t.seconds = 1_700_000_000;
    t.nanos = 999_999_999;
    let bytes = write_to_bytes(&t);
    assert_eq!(t, Timestamp::parse_from_bytes(&bytes).unwrap());
}

#[test]
fn size_is_stable_and_matches_encoding() {
    let mut d = Duration::new();
    d.seconds = 315_576_000_000;
    d.nanos = -999_999_999;
    d.unknown_fields.add_fixed32(9, 7);
    let first = d.compute_size();
    let second = d.compute_size();
    assert_eq!(first, second);
    assert_eq!(first, write_to_bytes(&d).len() as u64);
    assert_eq!(1 + 6 + 1 + 10 + 5, first);
}

#[test]
fn every_strict_prefix_of_one_field_fails() {
    let mut d = Duration::new();
    d.seconds = -300;
    let bytes = write_to_bytes(&d);
    for k in 1..bytes.len() {
        assert!(Duration::parse_from_bytes(&bytes[..k]).is_err(), "prefix {}", k);
    }
    let mut m = MyMessage::new();
    m.unknown_fields.add_length_delimited(3, vec![1, 2, 3]);
    let bytes = write_to_bytes(&m);
    for k in 1..bytes.len() {
        assert!(MyMessage::parse_from_bytes(&bytes[..k]).is_err(), "prefix {}", k);
    }
}

#[test]
fn unknown_fields_are_written_back_byte_for_byte() {
    let input = decode_hex("08 96 01 2a 03 61 62 63 3d 01 02 03 04 28 05 2a 00");
    let d = Duration::parse_from_bytes(&input).unwrap();
    assert_eq!(150, d.seconds);
    assert_eq!(4, d.unknown_fields.len());
    assert_eq!(input, write_to_bytes(&d));
}

#[test]
fn packed_and_unpacked_decode_alike() {
    let values = [1u64, 300, u64::MAX];
    let mut unpacked = CodedOutputStream::vec(Vec::new());
    for v in values.iter() {
        unpacked.write_uint64(5, *v).unwrap();
    }
    let unpacked = unpacked.into_inner();
    let mut packed = CodedOutputStream::vec(Vec::new());
    packed.write_repeated_packed_uint64(5, &values).unwrap();
    let packed = packed.into_inner();
    assert_ne!(unpacked, packed);

    for bytes in [unpacked, packed].iter() {
        let mut is = CodedInputStream::from_bytes(bytes);
        let mut got = Vec::new();
        while !is.eof() {
            let tag = is.read_tag().unwrap();
            assert_eq!(5, tag.field_number);
            is.read_repeated_uint64_into(tag.wire_type, &mut got).unwrap();
        }
        assert_eq!(values.to_vec(), got);
    }
}

#[test]
fn nested_frames_and_recursion_budget() {
    let mut is = CodedInputStream::from_bytes(&decode_hex("03 08 96 01 07"));
    let len = is.read_raw_varint64().unwrap();
    let old = is.push_limit(len).unwrap();
    assert_eq!(3, is.bytes_until_limit());
    assert_eq!(Err(ProtobufError::Truncated), is.push_limit(4));
    let mut inner = Duration::new();
    inner.merge_from(&mut is).unwrap();
    assert_eq!(150, inner.seconds);
    assert!(is.eof());
    is.pop_limit(old);
    assert_eq!(Ok(7), is.read_raw_varint64());

    is.set_recursion_limit(1);
    assert_eq!(Ok(()), is.incr_recursion());
    assert_eq!(Err(ProtobufError::RecursionLimitExceeded), is.incr_recursion());
    is.decr_recursion();
    assert_eq!(Ok(()), is.incr_recursion());
}

#[test]
fn write_message_refuses_what_does_not_fit() {
    let mut d = Duration::new();
    d.seconds = 150;
    let mut os = CodedOutputStream::bytes(vec![0; 4]);
    assert_eq!(Err(ProtobufError::BufferTooSmall), os.write_message(3, &d));
    assert_eq!(0, os.total_bytes_written());
    let mut os = CodedOutputStream::bytes(vec![0; 4]);
    os.write_message_no_tag(&d).unwrap();
    os.check_eof();
    assert_eq!(decode_hex("03 08 96 01"), os.into_inner());
}

#[test]
fn unknown_field_store_keeps_order_and_duplicates() {
    let mut f = UnknownFields::new();
    assert!(f.is_empty());
    f.add_varint(4, 1);
    f.add_fixed64(2, 9);
    f.add_varint(4, 2);
    assert_eq!(3, f.len());
    assert_eq!(Some(&UnknownValue::Varint(1)), f.get(4));
    assert_eq!(None, f.get(5));
    let mut os = CodedOutputStream::vec(Vec::new());
    os.write_unknown_fields(&f).unwrap();
    assert_eq!(decode_hex("20 01 11 09 00 00 00 00 00 00 00 20 02"), os.into_inner());
    f.clear();
    assert!(f.is_empty());
}

fn colors() -> EnumDescriptor {
    let proto = EnumDescriptorProto {
        name: "Color".to_string(),
        value: vec![
            EnumValueDescriptorProto { name: "RED".to_string(), number: 5 },
            EnumValueDescriptorProto { name: "GREEN".to_string(), number: 0 },
            EnumValueDescriptorProto { name: "CRIMSON".to_string(), number: 5 },
        ],
    };
    EnumDescriptor::new(proto, "paint.Color".to_string())
}

#[test]
fn enum_lookup_and_default() {
    let d = colors();
    assert_eq!("paint.Color", d.full_name());
    assert_eq!(3, d.values().len());
    assert_eq!("RED", d.default_value().name());
    assert_eq!("RED", d.first_value().name());
    assert_eq!("RED", d.value_by_number(5).unwrap().name());
    assert_eq!("GREEN", d.value_by_number(0).unwrap().name());
    assert!(d.value_by_number(7).is_none());
    assert_eq!("RED", d.value_by_number_or_default(7).name());
    assert_eq!(5, d.value_by_name("CRIMSON").unwrap().value());
    assert!(d.value_by_name("BLUE").is_none());
    assert_eq!("paint.Color.GREEN", d.value_by_number(0).unwrap().full_name());
    let g = EnumGen::new(d, true);
    assert!(g.allow_alias());
    assert_eq!(3, g.values_all().len());
    let unique = g.values_unique();
    assert_eq!(
        vec!["RED", "GREEN"],
        unique.iter().map(|v| v.name()).collect::<Vec<_>>()
    );
}

#[test]
fn enum_without_aliases_is_unique() {
    let proto = EnumDescriptorProto {
        name: "E".to_string(),
        value: vec![
            EnumValueDescriptorProto { name: "A".to_string(), number: 0 },
            EnumValueDescriptorProto { name: "B".to_string(), number: 1 },
        ],
    };
    let g = EnumGen::new(EnumDescriptor::new(proto, "E".to_string()), false);
    assert_eq!(2, g.values_unique().len());
    assert!(!g.allow_alias());
}

fn decl(label: Label, field_type: FieldType) -> FieldDeclaration {
    FieldDeclaration {
        number: 1,
        label,
        field_type,
        oneof_index: None,
        packed: false,
        is_map: false,
    }
}

#[test]
fn field_classification() {
    let p = FieldPlan::parse(decl(Label::Optional, FieldType::Int32), Syntax::Proto3);
    assert_eq!(FieldKind::Singular(SingularFieldFlag::WithoutFlag), p.kind);
    assert!(!p.has_has());
    let p = FieldPlan::parse(decl(Label::Optional, FieldType::Message), Syntax::Proto3);
    assert_eq!(
        FieldKind::Singular(SingularFieldFlag::WithFlag {
            required: false,
            option_kind: OptionKind::MessageField
        }),
        p.kind
    );
    assert!(p.has_has());
    let p = FieldPlan::parse(decl(Label::Required, FieldType::Sint64), Syntax::Proto2);
    assert_eq!(
        FieldKind::Singular(SingularFieldFlag::WithFlag {
            required: true,
            option_kind: OptionKind::Option
        }),
        p.kind
    );
    assert!(p.is_zigzag());
    let mut f = decl(Label::Repeated, FieldType::Fixed32);
    f.packed = true;
    let p = FieldPlan::parse(f, Syntax::Proto2);
    assert!(p.is_repeated_packed());
    assert_eq!(WireType::Fixed32, p.wire_type);
    assert_eq!(WireType::LengthDelimited, p.tag_wire_type());
    let mut f = decl(Label::Optional, FieldType::Enum);
    f.oneof_index = Some(0);
    let p = FieldPlan::parse(f, Syntax::Proto3);
    assert_eq!(FieldKind::Oneof(0), p.kind);
    assert!(p.is_enum());
    assert_eq!(Some(1), field_type_size(FieldType::Bool));
    assert_eq!(Some(8), field_type_size(FieldType::Sfixed64));
    assert_eq!(None, field_type_size(FieldType::String));
}

#[test]
fn decode_reads_string_payload() {
    let mut is = CodedInputStream::from_bytes(&decode_hex("12 07 74 65 73 74 69 6e 67"));
    let tag = is.read_tag().unwrap();
    assert_eq!(WireType::LengthDelimited, tag.wire_type);
    assert_eq!(b"testing".to_vec(), is.read_bytes().unwrap());
    let mut is = CodedInputStream::from_bytes(&decode_hex("05 61 62"));
    assert_eq!(Err(ProtobufError::Truncated), is.read_bytes());
}

#[test]
fn enum_numbers_are_written_as_int32() {
    let mut os = CodedOutputStream::vec(Vec::new());
    os.write_enum_or_unknown(1, EnumOrUnknown::from_i32(-3)).unwrap();
    os.write_repeated_packed_enum_or_unknown(
        2,
        &[EnumOrUnknown::from_i32(1), EnumOrUnknown::from_i32(300)],
    )
    .unwrap();
    assert_eq!(
        decode_hex("08 fd ff ff ff ff ff ff ff ff 01 12 03 01 ac 02"),
        os.into_inner()
    );
}

#[test]
fn oneof_members_in_declaration_order() {
    let mut a = decl(Label::Optional, FieldType::Int32);
    a.oneof_index = Some(0);
    let mut b = decl(Label::Optional, FieldType::String);
    b.number = 2;
    let mut c = decl(Label::Optional, FieldType::Message);
    c.number = 3;
    c.oneof_index = Some(0);
    let o = OneofDescriptor::new(
        "pkg.Msg".to_string(),
        vec![a, b, c],
        OneofDescriptorProto { name: "choice".to_string() },
        0,
    );
    assert_eq!("choice", o.name());
    assert_eq!("choice", o.proto().name);
    assert_eq!("pkg.Msg.choice", o.full_name());
    let members = o.fields();
    assert_eq!(vec![1, 3], members.iter().map(|f| f.number).collect::<Vec<_>>());
}

#[test]
fn boxing_follows_cycles_only() {
    // 0 holds 1 in a oneof, 1 holds 2, 2 holds 0; 3 holds 4; 4 holds nothing.
    let types = vec![vec![1], vec![2], vec![0], vec![4], vec![]];
    assert!(need_boxed(&types, 1, 0));
    assert!(need_boxed(&types, 0, 0));
    assert!(!need_boxed(&types, 4, 3));
    assert!(!need_boxed(&types, 3, 0));
    assert!(need_boxed(&types, 3, 4));
}

fn nested(levels: usize) -> RecursiveMessage {
    let mut test = RecursiveMessage::new();
    for _ in 0..levels {
        let mut t = RecursiveMessage::new();
        t.child = Some(Box::new(test));
        test = t;
    }
    test
}

#[test]
fn nesting_limit_boundaries() {
    let msg = nested(4);
    let bytes = write_to_bytes(&msg);
    assert_eq!(decode_hex("0a 06 0a 04 0a 02 0a 00"), bytes);
    assert_eq!(bytes.len() as u64, msg.compute_size());
    assert_eq!(
        Err(ProtobufError::RecursionLimitExceeded),
        RecursiveMessage::parse_from_bytes_with_limit(&bytes, 3)
    );
    assert_eq!(
        Err(ProtobufError::RecursionLimitExceeded),
        RecursiveMessage::parse_from_bytes_with_limit(&bytes, 4)
    );
    assert_eq!(Ok(nested(4)), RecursiveMessage::parse_from_bytes_with_limit(&bytes, 5));
    assert_eq!(
        Err(ProtobufError::RecursionLimitExceeded),
        RecursiveMessage::parse_from_bytes_with_limit(&[], 0)
    );
    assert_eq!(Ok(nested(0)), RecursiveMessage::parse_from_bytes_with_limit(&[], 1));
    assert_eq!(
        Err(ProtobufError::RecursionLimitExceeded),
        RecursiveMessage::parse_from_bytes_with_limit(&decode_hex("0a 00"), 1)
    );
    assert_eq!(
        Err(ProtobufError::Truncated),
        RecursiveMessage::parse_from_bytes_with_limit(&decode_hex("0a 02 0a"), 5)
    );
}

#[test]
fn groups_are_passed_over() {
    // start group 1 { field 1 = 1; start group 2 { } end group 2 } end group 1, then field 1 = 150
    let bytes = decode_hex("0b 08 01 13 14 0c 08 96 01");
    let d = Duration::parse_from_bytes(&bytes).unwrap();
    assert_eq!(150, d.seconds);
    assert!(d.unknown_fields.is_empty());
    let m = MyMessage::parse_from_bytes(&bytes).unwrap();
    assert_eq!(1, m.unknown_fields.len());

    let mut is = CodedInputStream::from_bytes(&decode_hex("0b 14"));
    is.read_tag().unwrap();
    assert_eq!(Err(ProtobufError::UnmatchedGroup), is.skip_group(1));
    assert!(Duration::parse_from_bytes(&decode_hex("0c")).is_err());
    assert!(Duration::parse_from_bytes(&decode_hex("0b 08 01")).is_err());
}

#[test]
fn required_fields_must_be_present() {
    let opt = FieldPlan::parse(decl(Label::Optional, FieldType::Int32), Syntax::Proto2);
    let req = FieldPlan::parse(decl(Label::Required, FieldType::Int32), Syntax::Proto2);
    assert_eq!(Ok(()), check_initialized(&[opt, req], &[false, true]));
    assert_eq!(
        Err(ProtobufError::RequiredFieldMissing),
        check_initialized(&[opt, req], &[true, false])
    );
    assert_eq!(Ok(()), check_initialized(&[], &[]));
}

#[test]
fn writer_stream_asks_for_flush_in_chunks() {
    let mut os = CodedOutputStream::new();
    os.write_raw_bytes(&vec![7u8; 8191]).unwrap();
    assert!(!os.needs_flush());
    os.write_raw_byte(7).unwrap();
    assert!(os.needs_flush());
    assert_eq!(8192, os.flush().len());
    assert!(!os.needs_flush());
    assert!(!CodedOutputStream::vec(vec![0; 9000]).needs_flush());
}

#[test]
fn message_errors_are_typed() {
    assert_eq!(
        Err(ProtobufError::MalformedVarint),
        Timestamp::parse_from_bytes(&decode_hex("08 ff ff ff ff ff ff ff ff ff ff 01"))
    );
    assert_eq!(
        Err(ProtobufError::InvalidTag),
        MyMessage::parse_from_bytes(&decode_hex("01 02 03"))
    );
    assert_eq!(
        Err(ProtobufError::Truncated),
        Duration::parse_from_bytes(&decode_hex("0a 03 10"))
    );
    assert_eq!(
        Err(ProtobufError::UnmatchedGroup),
        Duration::parse_from_bytes(&decode_hex("0b 14"))
    );
}
