use nbtwire::reader::{ByteReader, Readable};
use nbtwire::tag::Tag;
use nbtwire::writer::Writable;
use nbtwire::CodecError;
use std::io::Write;

/// The classic minimal document: a root compound named "hello world" with
/// one string entry "name" -> "Bananrama".
fn hello_world_bytes() -> Vec<u8> {
    let mut b: Vec<u8> = Vec::new();
    b.push(0x0A);
    b.extend_from_slice(&[0x00, 0x0B]);
    b.extend_from_slice(b"hello world");
    b.push(0x08);
    b.extend_from_slice(&[0x00, 0x04]);
    b.extend_from_slice(b"name");
    b.extend_from_slice(&[0x00, 0x09]);
    b.extend_from_slice(b"Bananrama");
    b.push(0x00);
    b
}

fn hello_world_tag() -> Tag {
    Tag::Compound(vec![(
        "hello world".to_string(),
        Tag::Compound(vec![(
            "name".to_string(),
            Tag::String("Bananrama".to_string()),
        )]),
    )])
}

fn gzip(data: &[u8]) -> Vec<u8> {
    let mut enc = flate2::write::GzEncoder::new(Vec::new(), flate2::Compression::default());
    enc.write_all(data).unwrap();
    enc.finish().unwrap()
}

#[test]
fn test_decode_hello_world() {
    let buf = hello_world_bytes();
    let tag = Tag::read(&mut ByteReader::new(buf)).unwrap();
    assert_eq!(tag, hello_world_tag());
}

#[test]
fn test_roundtrip_hello_world() {
    let original = hello_world_bytes();

    let tag = Tag::read(&mut ByteReader::new(original.clone())).unwrap();

    let mut result = Vec::new();
    tag.write(&mut result).unwrap();

    assert_eq!(result, original);
}

#[test]
fn test_stringtest() {
    let correct_tag = Tag::Compound(vec![(
        "😃".to_string(),
        Tag::List(vec![
            Tag::String("asdfkghasfjgihsdfogjsndfg".to_string()),
            Tag::String("jnabsfdgihsabguiqwrntgretqwejirhbiqw".to_string()),
            Tag::String("asd".to_string()),
            Tag::String("wqierjgt7wqy8u4rtbwreithwretiwerutbwenryq8uwervqwer9iuqwbrgyuqrbtwierotugqewrtqwropethert".to_string()),
            Tag::String("asdf".to_string()),
            Tag::String("alsdkjiqwoe".to_string()),
            Tag::String("lmqi9hyqd".to_string()),
            Tag::String("qwertyuiop".to_string()),
            Tag::String("asdfghjkl".to_string()),
            Tag::String("zxcvbnm".to_string()),
            Tag::String("                               ".to_string()),
            Tag::String("words words words words words words".to_string()),
            Tag::String("aaaaaaaaaaaaaaaaaaaa".to_string()),
            Tag::String("♥".to_string()),
            Tag::String("a\nb\n\n\nc\r\rd".to_string()),
            Tag::String("😁".to_string()),
        ]),
    )]);

    let mut plain = Vec::new();
    correct_tag.write(&mut plain).unwrap();
    let compressed = gzip(&plain);

    let original_tag = Tag::read_gzip(&compressed).unwrap();

    assert_eq!(original_tag, correct_tag);
}

#[test]
fn test_gzip_roundtrip_bytes() {
    // the compressed read path decodes the same document the plain path does,
    // and the decoded tree re-encodes to the exact pre-compression bytes
    let original = hello_world_bytes();
    let tag = Tag::read_gzip(&gzip(&original)).unwrap();
    assert_eq!(tag, hello_world_tag());

    let mut rewritten = Vec::new();
    tag.write(&mut rewritten).unwrap();
    assert_eq!(rewritten, original);
}

#[test]
fn test_bad_gzip_is_error() {
    assert_eq!(
        Tag::read_gzip(&vec![1, 2, 3, 4]),
        Err(CodecError::BadGzip)
    );
}

#[test]
fn test_empty_document() {
    let tag = Tag::read(&mut ByteReader::new(vec![0x00])).unwrap();
    assert_eq!(tag, Tag::End);
    let mut out = Vec::new();
    tag.write(&mut out).unwrap();
    assert_eq!(out, vec![0x00]);
}

#[test]
fn test_bad_discriminant_is_error() {
    // a discriminant byte outside 0..=12 is a malformed-input error
    let mut rd = ByteReader::new(vec![0x0D, 0x00, 0x00]);
    assert_eq!(Tag::read(&mut rd), Err(CodecError::BadDiscriminant));

    let mut rd = ByteReader::new(vec![0xFF]);
    assert_eq!(Tag::read(&mut rd), Err(CodecError::BadDiscriminant));
}

#[test]
fn test_end_marker_stops_before_sibling_bytes() {
    // a compound's end marker must stop the parse exactly, leaving the
    // sibling bytes that follow untouched
    let mut buf = hello_world_bytes();
    let sibling = vec![0xDE, 0xAD, 0xBE, 0xEF];
    buf.extend_from_slice(&sibling);

    let mut rd = ByteReader::new(buf);
    let tag = Tag::read(&mut rd).unwrap();
    assert_eq!(tag, hello_world_tag());
    assert_eq!(rd.read_bytes(4).unwrap(), sibling);
}

#[test]
fn test_all_payload_kinds_round_trip() {
    let tag = Tag::Compound(vec![(
        "root".to_string(),
        Tag::Compound(vec![
            ("byte".to_string(), Tag::Byte(-3)),
            ("short".to_string(), Tag::Short(-2)),
            ("int".to_string(), Tag::Int(123456)),
            ("long".to_string(), Tag::Long(-99999999999)),
            ("float".to_string(), Tag::Float(0x3F80_0000)),
            ("double".to_string(), Tag::Double(0x3FF0_0000_0000_0000)),
            ("bytes".to_string(), Tag::ByteArray(vec![1, 2, 3])),
            ("string".to_string(), Tag::String("héllo 😁".to_string())),
            (
                "list".to_string(),
                Tag::List(vec![Tag::Int(1), Tag::Int(2), Tag::Int(3)]),
            ),
            ("ints".to_string(), Tag::IntArray(vec![-1, 0, 1])),
            ("longs".to_string(), Tag::LongArray(vec![-1, 0, 1])),
            ("empty list".to_string(), Tag::List(vec![])),
        ]),
    )]);

    let mut bytes = Vec::new();
    tag.write(&mut bytes).unwrap();

    let mut rd = ByteReader::new(bytes.clone());
    let decoded = Tag::read(&mut rd).unwrap();
    assert_eq!(decoded, tag);

    let mut again = Vec::new();
    decoded.write(&mut again).unwrap();
    assert_eq!(again, bytes);
}

#[test]
fn test_truncated_document_is_eof() {
    let mut buf = hello_world_bytes();
    buf.truncate(buf.len() - 5);
    let mut rd = ByteReader::new(buf);
    assert_eq!(Tag::read(&mut rd), Err(CodecError::Eof));
}

#[test]
fn test_depth_limit() {
    // 600 nested lists exceed the decoder's nesting bound
    let mut buf: Vec<u8> = Vec::new();
    buf.push(0x09); // root: a named list tag
    buf.extend_from_slice(&[0x00, 0x01]);
    buf.push(b'd');
    for _ in 0..600 {
        // each level: one list element whose type is again a list
        buf.push(0x09);
        buf.extend_from_slice(&[0x00, 0x00, 0x00, 0x01]);
    }
    buf.push(0x00);
    buf.extend_from_slice(&[0x00, 0x00, 0x00, 0x00]);
    let mut rd = ByteReader::new(buf);
    assert_eq!(Tag::read(&mut rd), Err(CodecError::DepthLimit));
}

#[test]
fn test_duplicate_compound_key_rejected() {
    // a root compound "r" holding two byte entries both named "k"
    let buf: Vec<u8> = vec![
        0x0A, 0x00, 0x01, b'r', // root compound named "r"
        0x01, 0x00, 0x01, b'k', 0x01, // byte entry "k" = 1
        0x01, 0x00, 0x01, b'k', 0x02, // byte entry "k" = 2 again
        0x00,
    ];
    let mut rd = ByteReader::new(buf);
    assert_eq!(Tag::read(&mut rd), Err(CodecError::DuplicateKey));
}

#[test]
fn test_empty_list_with_nonzero_element_type_rejected() {
    // an empty list whose header records element type 3; the in-memory
    // list cannot carry it, so the document cannot round-trip byte-exactly
    let buf: Vec<u8> = vec![
        0x09, 0x00, 0x01, b'L', // root list named "L"
        0x03, 0x00, 0x00, 0x00, 0x00, // element type int, count 0
    ];
    let mut rd = ByteReader::new(buf);
    assert_eq!(Tag::read(&mut rd), Err(CodecError::BadListHeader));
}

#[test]
fn test_write_rejects_bare_value_root() {
    let mut out = Vec::new();
    assert_eq!(Tag::Int(5).write(&mut out), Err(CodecError::BadRoot));
    assert!(out.is_empty());
}

#[test]
fn test_nbt_as_wire_primitive() {
    // a tree document embeds as one primitive among others
    let mut buf = Vec::new();
    buf.write_varint(7).unwrap();
    buf.write_nbt(&hello_world_tag()).unwrap();
    buf.write_boolean(true).unwrap();

    let mut rd = ByteReader::new(buf);
    assert_eq!(rd.read_varint().unwrap(), 7);
    assert_eq!(rd.read_nbt().unwrap(), hello_world_tag());
    assert_eq!(rd.read_boolean().unwrap(), true);
}

#[test]
fn test_accessors() {
    let t = Tag::Int(9);
    assert_eq!(t.id(), 3);
    assert_eq!(t.as_int(), Some(&9));
    assert_eq!(t.as_byte(), None);
    assert_eq!(Tag::default(), Tag::End);
    assert_eq!(Tag::End.id(), 0);
    assert_eq!(Tag::String("x".to_string()).as_string(), Some("x"));
    assert_eq!(Tag::List(vec![Tag::Byte(1)]).id(), 9);
}
