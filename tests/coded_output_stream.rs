use protobuf::coded_output_stream::CodedOutputStream;
use protobuf::error::ProtobufError;
use protobuf::wire_format::WireType;

fn decode_hex(hex: &str) -> Vec<u8> {
    hex.split_whitespace()
        .map(|b| u8::from_str_radix(b, 16).unwrap())
        .collect()
}

fn encode_hex(bytes: &[u8]) -> String {
    bytes
        .iter()
        .map(|b| format!("{:02x}", b))
        .collect::<Vec<_>>()
        .join(" ")
}

fn test_write<F>(expected: &str, mut gen: F)
where
    F: FnMut(&mut CodedOutputStream) -> Result<(), ProtobufError>,
{
    let expected_bytes = decode_hex(expected);

    // buffered for a writer
    {
        let mut v = Vec::new();
        {
            let mut os = CodedOutputStream::new();
            gen(&mut os).unwrap();
            v.extend(os.flush());
        }
        assert_eq!(encode_hex(&expected_bytes), encode_hex(&v));
    }

    // fixed buffer
    {
        let mut r = Vec::with_capacity(expected_bytes.len());
        r.resize(expected_bytes.len(), 0);
        let r = {
            let mut os = CodedOutputStream::bytes(r);
            gen(&mut os).unwrap();
            os.check_eof();
            os.into_inner()
        };
        assert_eq!(encode_hex(&expected_bytes), encode_hex(&r));
    }

    // growable vector
    {
        let mut r = Vec::new();
        r.extend(&[11, 22, 33, 44, 55, 66, 77]);
        let mut r = {
            let mut os = CodedOutputStream::vec(r);
            gen(&mut os).unwrap();
            assert!(os.flush().is_empty());
            os.into_inner()
        };
        r.drain(..7);
        assert_eq!(encode_hex(&expected_bytes), encode_hex(&r));
    }
}

#[test]
fn test_output_stream_write_raw_byte() {
    test_write("a1", |os| os.write_raw_byte(0xa1));
}

#[test]
fn test_output_stream_write_tag() {
    test_write("08", |os| os.write_tag(1, WireType::Varint));
}

#[test]
fn test_output_stream_write_raw_bytes() {
    test_write("00 ab", |os| os.write_raw_bytes(&[0x00, 0xab]));

    let expected = std::iter::repeat("01 02 03 04")
        .take(2048)
        .collect::<Vec<_>>()
        .join(" ");
    test_write(&expected, |os| {
        for _ in 0..2048 {
            os.write_raw_bytes(&[0x01, 0x02, 0x03, 0x04])?;
        }

        Ok(())
    });
}

#[test]
fn test_output_stream_write_raw_varint32() {
    test_write("96 01", |os| os.write_raw_varint32(150));
    test_write("ff ff ff ff 0f", |os| os.write_raw_varint32(0xffffffff));
}

#[test]
fn test_output_stream_write_raw_varint64() {
    test_write("96 01", |os| os.write_raw_varint64(150));
    test_write("ff ff ff ff ff ff ff ff ff 01", |os| {
        os.write_raw_varint64(0xffffffffffffffff)
    });
}

#[test]
fn test_output_stream_write_int32_no_tag() {
    test_write("ff ff ff ff ff ff ff ff ff 01", |os| {
        os.write_int32_no_tag(-1)
    });
}

#[test]
fn test_output_stream_write_int64_no_tag() {
    test_write("ff ff ff ff ff ff ff ff ff 01", |os| {
        os.write_int64_no_tag(-1)
    });
}

#[test]
fn test_output_stream_write_raw_little_endian32() {
    test_write("f1 e2 d3 c4", |os| os.write_raw_little_endian32(0xc4d3e2f1));
}

#[test]
fn test_output_stream_write_raw_little_endian64() {
    test_write("f1 e2 d3 c4 b5 a6 07 f8", |os| {
        os.write_raw_little_endian64(0xf807a6b5c4d3e2f1)
    });
}

#[test]
fn test_output_stream_io_write() {
    let expected = [0x11, 0x22, 0x33, 0x44, 0x55, 0x66, 0x77];

    // buffered for a writer
    {
        let mut v = Vec::new();
        {
            let mut os = CodedOutputStream::new();
            os.write_raw_bytes(&expected).expect("write");
            v.extend(os.flush());
        }
        assert_eq!(expected, *v);
    }

    // fixed buffer
    {
        let mut v = Vec::with_capacity(expected.len());
        v.resize(expected.len(), 0);
        let v = {
            let mut os = CodedOutputStream::bytes(v);
            os.write_raw_bytes(&expected).expect("write");
            os.flush();
            os.check_eof();
            os.into_inner()
        };
        assert_eq!(expected, *v);
    }

    // growable vector
    {
        let v = Vec::new();
        let v = {
            let mut os = CodedOutputStream::vec(v);
            os.write_raw_bytes(&expected).expect("write");
            os.flush();
            os.into_inner()
        };
        assert_eq!(expected, *v);
    }
}

#[test]
fn flush_for_vec_does_not_allocate_more() {
    let v = Vec::with_capacity(10);
    let v = {
        let mut os = CodedOutputStream::vec(v);
        for i in 0..10 {
            os.write_raw_byte(i as u8).unwrap();
        }
        os.flush();
        os.into_inner()
    };
    assert_eq!(10, v.len());
    assert_eq!(10, v.capacity());
}

#[test]
fn total_bytes_written_to_bytes() {
    let buf = vec![0; 10];
    let mut stream = CodedOutputStream::bytes(buf);
    assert_eq!(0, stream.total_bytes_written());
    stream.write_raw_bytes(&[11, 22]).unwrap();
    assert_eq!(2, stream.total_bytes_written());
    stream.write_raw_bytes(&[33, 44, 55]).unwrap();
    assert_eq!(5, stream.total_bytes_written());
}

#[test]
fn total_bytes_written_to_vec() {
    let buf = Vec::new();
    let mut stream = CodedOutputStream::vec(buf);
    for i in 0..100 {
        stream.write_raw_bytes(&[0, 1, 2]).unwrap();
        assert_eq!((i + 1) * 3, stream.total_bytes_written());
    }
}

#[test]
fn total_bytes_written_counts_flushed_bytes() {
    let mut stream = CodedOutputStream::new();
    stream.write_raw_bytes(&[1, 2, 3]).unwrap();
    assert_eq!(vec![1, 2, 3], stream.flush());
    stream.write_raw_byte(4).unwrap();
    assert_eq!(4, stream.total_bytes_written());
    assert_eq!(vec![4], stream.flush());
}

#[test]
fn fixed_buffer_refuses_what_does_not_fit() {
    let mut os = CodedOutputStream::bytes(vec![0; 2]);
    os.write_raw_byte(7).unwrap();
    assert_eq!(Err(ProtobufError::BufferTooSmall), os.write_raw_varint32(150));
    assert_eq!(1, os.total_bytes_written());
    os.write_raw_byte(8).unwrap();
    os.check_eof();
    assert_eq!(vec![7, 8], os.into_inner());
}

#[test]
fn writes_every_scalar_kind() {
    test_write("08 96 01", |os| os.write_uint64(1, 150));
    test_write("10 96 01", |os| os.write_uint32(2, 150));
    test_write("08 ff ff ff ff ff ff ff ff ff 01", |os| os.write_int64(1, -1));
    test_write("08 01", |os| os.write_sint32(1, -1));
    test_write("10 03", |os| os.write_sint64(2, -2));
    test_write("08 02", |os| os.write_sint32(1, 1));
    test_write("0d 04 03 02 01", |os| os.write_fixed32(1, 0x01020304));
    test_write("09 08 07 06 05 04 03 02 01", |os| os.write_fixed64(1, 0x0102030405060708));
    test_write("0d ff ff ff ff", |os| os.write_sfixed32(1, -1));
    test_write("09 fe ff ff ff ff ff ff ff", |os| os.write_sfixed64(1, -2));
    test_write("08 01", |os| os.write_bool(1, true));
    test_write("08 00", |os| os.write_bool(1, false));
    test_write("08 02", |os| os.write_enum(1, 2));
    test_write("12 07 74 65 73 74 69 6e 67", |os| os.write_string(2, "testing"));
    test_write("1a 02 21 22", |os| os.write_bytes(3, &[0x21, 0x22]));
    test_write("00", |os| os.write_raw_varint64(0));
}

#[test]
fn writes_packed_fields() {
    test_write("22 06 03 8e 02 9e a7 05", |os| {
        os.write_repeated_packed_int32(4, &[3, 270, 86942])
    });
    test_write("", |os| os.write_repeated_packed_int32(4, &[]));
    test_write("0a 02 01 03", |os| os.write_repeated_packed_sint32(1, &[-1, -2]));
    test_write("0a 08 01 00 00 00 02 00 00 00", |os| {
        os.write_repeated_packed_fixed32(1, &[1, 2])
    });
    test_write("0a 02 01 01", |os| os.write_repeated_packed_bool(1, &[true, true]));
    test_write("01 01", |os| os.write_repeated_packed_bool_no_tag(&[true, true]));
    test_write("0a 0b 01 ff ff ff ff ff ff ff ff ff 01", |os| {
        os.write_repeated_packed_int64(1, &[1, -1])
    });
    test_write("0a 03 96 01 05", |os| os.write_repeated_packed_uint64(1, &[150, 5]));
}
