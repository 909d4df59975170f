use wnfs::cbor::{is_safe, read_declared};
use wnfs::cid::{Cid, CODEC_RAW};
use wnfs::ipld::{decode, encode, value_from_raw, Raw, Value};
use wnfs::private::codec::header_from_value;
use wnfs::private::ratchet::read_ratchet;
use wnfs::store::cid_of_block;

#[test]
fn a_length_beyond_the_bytes_is_refused_before_decoding() {
    // a list, a map, a byte string and a text that declare 2^64 - 1
    for head in [0x9bu8, 0xbb, 0x5b, 0x7b] {
        let mut bytes = vec![head];
        bytes.extend([0xff; 8]);
        assert!(!is_safe(&bytes));
        assert_eq!(decode(&bytes), None);
    }
    // three items declared, two there
    assert!(!is_safe(&[0x83, 1, 2]));
    assert_eq!(decode(&[0x83, 1, 2]), None);
    assert!(is_safe(&[0x82, 1, 2]));
    // one entry declared, the key only there
    assert!(!is_safe(&[0xa1, 0x61, 0x61]));
    assert!(is_safe(&[0xa1, 0x61, 0x61, 0x01]));
    // five bytes declared, four there
    assert!(!is_safe(&[0x45, 1, 2, 3, 4]));
    assert!(is_safe(&[0x45, 1, 2, 3, 4, 5]));
    // an argument that is cut off
    assert!(!is_safe(&[0x19, 0x01]));
    assert!(!is_safe(&[]));
}

#[test]
fn the_argument_is_read_with_the_highest_byte_first() {
    let bytes = [0x59, 0x01, 0x02, 0, 0, 0, 0, 0, 0];
    assert_eq!(read_declared(&bytes, 0, 25), 0x0102);
    assert_eq!(read_declared(&[0x17], 0, 23), 23);
    assert_eq!(read_declared(&[0x18, 0xff], 0, 24), 255);
    assert_eq!(
        read_declared(&[0x1a, 0x01, 0x02, 0x03, 0x04], 0, 26),
        0x0102_0304
    );
    assert_eq!(
        read_declared(&[0x00, 0x1b, 1, 2, 3, 4, 5, 6, 7, 8], 1, 27),
        0x0102_0304_0506_0708
    );
    assert_eq!(
        read_declared(&[0x1b, 0xff, 0xff, 0xff, 0xff, 0xff, 0xff, 0xff, 0xff], 0, 27),
        u64::MAX
    );
}

#[test]
fn nesting_is_bounded() {
    let deep = |lists: usize| {
        let mut bytes = vec![0x81u8; lists];
        bytes.push(0x00);
        bytes
    };
    assert!(is_safe(&deep(63)));
    let mut expected = Value::Integer(0);
    for _ in 0..63 {
        expected = Value::List(vec![expected]);
    }
    assert_eq!(decode(&deep(63)), Some(expected));
    assert!(!is_safe(&deep(64)));
    assert_eq!(decode(&deep(64)), None);
    assert_eq!(decode(&deep(100_000)), None);
}

#[test]
fn lists_and_maps_without_a_length_go_on_until_a_break() {
    assert!(is_safe(&[0x9f, 0x01, 0x02, 0xff]));
    assert_eq!(
        decode(&[0x9f, 0x01, 0x02, 0xff]),
        Some(Value::List(vec![Value::Integer(1), Value::Integer(2)]))
    );
    assert!(is_safe(&[0xbf, 0xff]));
    assert_eq!(decode(&[0xbf, 0xff]), Some(Value::StringMap(Vec::new())));
    assert_eq!(
        decode(&[0xbf, 0x61, 0x61, 0x9f, 0xff, 0xff]),
        Some(Value::StringMap(vec![(
            "a".to_string(),
            Value::List(Vec::new())
        )]))
    );
    // a list inside a list of two items
    assert_eq!(
        decode(&[0x82, 0x9f, 0x01, 0xff, 0x02]),
        Some(Value::List(vec![
            Value::List(vec![Value::Integer(1)]),
            Value::Integer(2)
        ]))
    );
    // no break, a break where none is due, a string without a length
    assert!(!is_safe(&[0x9f, 0x01, 0x02]));
    assert_eq!(decode(&[0x9f, 0x01, 0x02]), None);
    assert!(!is_safe(&[0xff]));
    assert!(!is_safe(&[0x82, 0x01, 0xff]));
    assert_eq!(decode(&[0x82, 0x01, 0xff]), None);
    assert!(!is_safe(&[0x5f, 0x41, 0x00, 0xff]));
    assert!(!is_safe(&[0x7f, 0x61, 0x61, 0xff]));
    // nesting counts lists of either form
    let mut deep = vec![0x9fu8; 64];
    deep.extend(vec![0xffu8; 64]);
    assert!(!is_safe(&deep));
    assert!(is_safe(&deep[1..127]));
}

#[test]
fn what_the_decoder_does_not_know_is_refused() {
    // a half-precision number, a simple value, a tag with two bytes
    assert!(!is_safe(&[0xf9, 0, 0]));
    assert!(!is_safe(&[0xf8, 0x20]));
    assert!(!is_safe(&[0xd9, 0, 42, 0x00]));
    assert!(!is_safe(&[0xc0, 0x00]));
    assert!(!is_safe(&[0x1c]));
    // a tag that is cut off
    assert!(!is_safe(&[0xd8]));
    assert!(!is_safe(&[0xd8, 42]));
}

#[test]
fn a_large_block_is_read_where_its_bytes_are_there() {
    let mut bytes = vec![0x5au8, 0x01, 0x00, 0x00, 0x01];
    bytes.extend(vec![7u8; 0x100_0001]);
    assert!(is_safe(&bytes));
    assert_eq!(decode(&bytes), Some(Value::Bytes(vec![7u8; 0x100_0001])));
    bytes.pop();
    assert!(!is_safe(&bytes));
    assert_eq!(decode(&bytes), None);
}

#[test]
fn a_map_needs_two_bytes_for_each_entry() {
    // a map of two entries with four bytes after its head
    let bytes = [0xa2u8, 0x61, 0x61, 0x01, 0x61];
    assert!(!is_safe(&bytes));
    let whole = [0xa2u8, 0x61, 0x61, 0x01, 0x61, 0x62, 0x02];
    assert!(is_safe(&whole));
    assert_eq!(
        decode(&whole),
        Some(Value::StringMap(vec![
            ("a".to_string(), Value::Integer(1)),
            ("b".to_string(), Value::Integer(2)),
        ]))
    );
    // a map that declares more entries than half the bytes that follow
    assert!(!is_safe(&[0xbb, 0x7f, 0xff, 0xff, 0xff, 0xff, 0xff, 0xff, 0xff]));
    assert!(!is_safe(&[0xbb, 0xff, 0xff, 0xff, 0xff, 0xff, 0xff, 0xff, 0xff]));
}

#[test]
fn what_is_written_is_fit_to_be_read() {
    let value = Value::StringMap(vec![
        (
            "link".to_string(),
            Value::Link(cid_of_block(CODEC_RAW, b"x")),
        ),
        (
            "list".to_string(),
            Value::List(vec![
                Value::Bool(false),
                Value::Null,
                Value::Integer(-70000),
                Value::Bytes(vec![7; 300]),
            ]),
        ),
        ("text".to_string(), Value::Text("héllo".to_string())),
    ]);
    let bytes = encode(&value).unwrap();
    assert!(is_safe(&bytes));
    assert_eq!(decode(&bytes), Some(value));
    // bytes after the value are not looked at
    let mut longer = bytes.clone();
    longer.extend([0xff, 0xff]);
    assert!(is_safe(&longer));
    assert!(decode(&longer).is_some());
}

#[test]
fn a_link_is_an_address_of_version_one_with_a_digest_of_32_bytes() {
    let digest = vec![9u8; 32];
    assert_eq!(
        value_from_raw(&Raw::Link(1, 0x55, 0x12, digest.clone())),
        Some(Value::Link(Cid {
            codec: 0x55,
            hash_code: 0x12,
            digest: [9u8; 32]
        }))
    );
    assert_eq!(value_from_raw(&Raw::Link(0, 0x70, 0x12, digest.clone())), None);
    assert_eq!(value_from_raw(&Raw::Link(1, 0x55, 0x12, vec![9u8; 31])), None);
    assert_eq!(value_from_raw(&Raw::Link(1, 0x55, 0x13, vec![9u8; 64])), None);

    // a link to an address of version 0 inside a list
    let inside = Raw::List(vec![
        Raw::Integer(1),
        Raw::StringMap(vec![("a".to_string(), Raw::Link(0, 0x70, 0x12, digest))]),
    ]);
    assert_eq!(value_from_raw(&inside), None);
}

#[test]
fn a_floating_point_number_is_no_value() {
    assert_eq!(value_from_raw(&Raw::Float), None);
    assert_eq!(
        value_from_raw(&Raw::List(vec![Raw::Null, Raw::Float])),
        None
    );
    assert_eq!(
        value_from_raw(&Raw::StringMap(vec![
            ("a".to_string(), Raw::Text("x".to_string())),
            ("b".to_string(), Raw::Bytes(vec![1])),
            ("c".to_string(), Raw::Bool(true)),
        ])),
        Some(Value::StringMap(vec![
            ("a".to_string(), Value::Text("x".to_string())),
            ("b".to_string(), Value::Bytes(vec![1])),
            ("c".to_string(), Value::Bool(true)),
        ]))
    );
    assert_eq!(decode(&[0xfa, 0x3f, 0x80, 0, 0]), None);
    assert_eq!(decode(&[0x81, 0xfb, 0x3f, 0xf0, 0, 0, 0, 0, 0, 0]), None);
}

#[test]
fn a_text_that_has_not_the_form_of_a_ratchet_holds_none() {
    // 133 bytes, the second character two bytes long
    let mut text = String::from("a\u{e9}");
    text.push_str(&"a".repeat(130));
    assert_eq!(text.len(), 133);
    assert_eq!(read_ratchet(&text), None);

    assert_eq!(read_ratchet(&"a".repeat(133)), None);
    assert_eq!(read_ratchet(&"a".repeat(132)), None);
    assert_eq!(read_ratchet(""), None);
    // 133 characters that are not all ASCII
    assert_eq!(read_ratchet(&"\u{e9}".repeat(133)), None);

    let header = Value::StringMap(vec![
        ("bare_name".to_string(), Value::Bytes(vec![0u8; 256])),
        ("inumber".to_string(), Value::Bytes(vec![0u8; 32])),
        ("ratchet".to_string(), Value::Text(text)),
    ]);
    assert_eq!(header_from_value(&header), None);
}

#[test]
fn a_ratchet_is_read_from_its_text() {
    let ratchet = skip_ratchet::Ratchet::zero([5u8; 32]);
    let text = String::from(&ratchet);
    assert_eq!(text.len(), 133);
    assert!(text.is_ascii());
    assert_eq!(read_ratchet(&text), Some(ratchet));
}
