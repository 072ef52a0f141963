use nbtwire::reader::{ByteReader, Readable};
use nbtwire::writer::Writable;
use nbtwire::CodecError;

#[test]
fn test_write_varint() {
    let mut buf = Vec::new();
    buf.write_varint(123456).unwrap();
    assert_eq!(buf, vec![192, 196, 7]);

    let mut buf = Vec::new();
    buf.write_varint(0).unwrap();
    assert_eq!(buf, vec![0]);
}

#[test]
fn test_read_varint() {
    let mut buf = ByteReader::new(vec![192, 196, 7]);
    assert_eq!(buf.read_varint().unwrap(), 123456);
    assert_eq!(buf.get_varint_size(123456), 3);

    let mut buf = ByteReader::new(vec![0]);
    assert_eq!(buf.read_varint().unwrap(), 0);
    assert_eq!(buf.get_varint_size(0), 1);

    let mut buf = ByteReader::new(vec![1]);
    assert_eq!(buf.read_varint().unwrap(), 1);
    assert_eq!(buf.get_varint_size(1), 1);
}

#[test]
fn test_read_varint_longer() {
    let mut buf = ByteReader::new(vec![138, 56, 0, 135, 56, 123]);
    assert_eq!(buf.read_varint().unwrap(), 7178);
}

#[test]
fn test_list() {
    let mut buf = Vec::new();
    buf.write_list(&vec!["a", "bc", "def"], |s: &&str| {
        let mut b = Vec::new();
        b.write_utf(s)?;
        Ok(b)
    })
    .unwrap();

    let mut buf = ByteReader::new(buf);

    let mut result = Vec::new();
    let length = buf.read_varint().unwrap();
    for _ in 0..length {
        result.push(buf.read_utf().unwrap());
    }

    assert_eq!(result, vec!["a", "bc", "def"]);
}

#[test]
fn test_int_id_list() {
    let mut buf = Vec::new();
    buf.write_list(&vec![1, 2, 3], |i: &i32| {
        let mut b = Vec::new();
        b.write_varint(*i)?;
        Ok(b)
    })
    .unwrap();

    let mut buf = ByteReader::new(buf);

    let result = buf.read_int_id_list().unwrap();
    assert_eq!(result, vec![1, 2, 3]);
}

#[test]
fn test_map() {
    let mut buf = Vec::new();
    buf.write_map(
        &vec![("a", 1), ("bc", 23), ("def", 456)],
        |k: &&str| {
            let mut b = Vec::new();
            b.write_utf(k)?;
            Ok(b)
        },
        |v: &i32| {
            let mut b = Vec::new();
            b.write_varint(*v)?;
            Ok(b)
        },
    )
    .unwrap();

    let mut buf = ByteReader::new(buf);

    let mut result = Vec::new();
    let length = buf.read_varint().unwrap();
    for _ in 0..length {
        result.push((buf.read_utf().unwrap(), buf.read_varint().unwrap()));
    }

    assert_eq!(
        result,
        vec![
            ("a".to_string(), 1),
            ("bc".to_string(), 23),
            ("def".to_string(), 456)
        ]
    );
}

#[test]
fn test_varint_negative_round_trip() {
    let mut buf = Vec::new();
    buf.write_varint(-1).unwrap();
    assert_eq!(buf, vec![255, 255, 255, 255, 15]);
    let mut rd = ByteReader::new(buf);
    assert_eq!(rd.read_varint().unwrap(), -1);

    let mut buf = Vec::new();
    buf.write_varint(i32::MIN).unwrap();
    let mut rd = ByteReader::new(buf);
    assert_eq!(rd.read_varint().unwrap(), i32::MIN);
}

#[test]
fn test_varint_size_query_matches_encoding() {
    let mut probe = ByteReader::new(Vec::new());
    for n in [0, 1, 127, 128, 300, 16383, 16384, 123456, 2097151, 2097152, -1, i32::MAX, i32::MIN]
    {
        let mut buf = Vec::new();
        buf.write_varint(n).unwrap();
        assert_eq!(buf.len(), probe.get_varint_size(n) as usize);
    }
}

#[test]
fn test_varlong_size_query() {
    let mut probe = ByteReader::new(Vec::new());
    assert_eq!(probe.get_varlong_size(0), 1);
    assert_eq!(probe.get_varlong_size(127), 1);
    assert_eq!(probe.get_varlong_size(128), 2);
    assert_eq!(probe.get_varlong_size(-1), 10);
    assert_eq!(probe.get_varlong_size(i32::MIN), 10);
}

#[test]
fn test_varint_too_long_rejected() {
    let mut rd = ByteReader::new(vec![0x80, 0x80, 0x80, 0x80, 0x80, 0x01]);
    assert_eq!(rd.read_varint(), Err(CodecError::VarintTooLong));
}

#[test]
fn test_varint_truncated_is_eof() {
    let mut rd = ByteReader::new(vec![0x80, 0x80]);
    assert_eq!(rd.read_varint(), Err(CodecError::Eof));
}

#[test]
fn test_boolean_strict() {
    let mut buf = Vec::new();
    buf.write_boolean(true).unwrap();
    buf.write_boolean(false).unwrap();
    assert_eq!(buf, vec![1, 0]);

    let mut rd = ByteReader::new(vec![1, 0, 2]);
    assert_eq!(rd.read_boolean().unwrap(), true);
    assert_eq!(rd.read_boolean().unwrap(), false);
    assert_eq!(rd.read_boolean(), Err(CodecError::BadBoolean));
}

#[test]
fn test_short_int_byte_layout() {
    let mut buf = Vec::new();
    buf.write_short(0x1234).unwrap();
    buf.write_int(-2).unwrap();
    buf.write_byte(7).unwrap();
    assert_eq!(buf, vec![0x12, 0x34, 0xFF, 0xFF, 0xFF, 0xFE, 7]);

    let mut rd = ByteReader::new(buf);
    assert_eq!(rd.read_byte().unwrap(), 0x12);
    assert_eq!(rd.read_byte().unwrap(), 0x34);
    assert_eq!(rd.read_int().unwrap(), -2);
    assert_eq!(rd.read_byte().unwrap(), 7);
}

#[test]
fn test_byte_array_round_trip() {
    let mut buf = Vec::new();
    buf.write_byte_array(&[9, 8, 7, 6]).unwrap();
    assert_eq!(buf, vec![4, 9, 8, 7, 6]);
    let mut rd = ByteReader::new(buf);
    assert_eq!(rd.read_byte_array().unwrap(), vec![9, 8, 7, 6]);
}

#[test]
fn test_byte_array_negative_length_rejected() {
    // varint -1 as a length prefix
    let mut buf = Vec::new();
    buf.write_varint(-1).unwrap();
    let mut rd = ByteReader::new(buf);
    assert_eq!(rd.read_byte_array(), Err(CodecError::BadLength));
}

#[test]
fn test_utf_multibyte_round_trip() {
    let s = "héllo \u{6f22}\u{5b57} \u{1F600} end";
    let mut buf = Vec::new();
    buf.write_utf(s).unwrap();
    let written = buf.clone();
    let mut rd = ByteReader::new(buf);
    assert_eq!(rd.read_utf().unwrap(), s);

    // writing the decoded string again reproduces the same bytes
    let mut again = Vec::new();
    again.write_utf(s).unwrap();
    assert_eq!(again, written);
}

#[test]
fn test_utf_invalid_bytes_rejected() {
    // declared length 2, then an invalid UTF-8 sequence
    let mut rd = ByteReader::new(vec![2, 0xC3, 0x28]);
    assert_eq!(rd.read_utf(), Err(CodecError::BadStringBytes));
}

#[test]
fn test_utf_write_too_long_is_error() {
    let long = "a".repeat(40000);
    let mut buf = Vec::new();
    assert_eq!(buf.write_utf(&long), Err(CodecError::StringTooLong));
    assert!(buf.is_empty());
}

#[test]
fn test_utf_read_declared_length_cap() {
    // declared length far beyond 4 * max_length
    let mut buf = Vec::new();
    buf.write_varint(200).unwrap();
    for _ in 0..200 {
        buf.push(b'x');
    }
    let mut rd = ByteReader::new(buf);
    assert_eq!(rd.read_utf_with_len(10), Err(CodecError::StringTooLong));
}
