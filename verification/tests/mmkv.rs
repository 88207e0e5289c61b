//! Tests of the store decoder: varints, containers, and the two
//! parse entry points.

use mmkv_parser::bytes::decode_hex;
use mmkv_parser::mmkv::{parse, parse_string_key_value_pairs, read_container, read_string, read_u64};
use mmkv_parser::Error;

#[test]
fn test_read_u64() {
    let buffer = [0xff, 0x81, 0x01, 0x00];
    let value = read_u64(&buffer);
    assert_eq!(value, Ok((&buffer[3..], 16639)));

    let buffer = [0x81, 0xAA];
    let value = read_u64(&buffer);
    assert_eq!(value, Err(Error::UnexpectedEof));

    let buffer = [0x80, 0x00, 0xff];
    let value = read_u64(&buffer);
    assert_eq!(value, Ok((&buffer[2..], 0)));
}

#[test]
fn test_read_u64_empty() {
    let value = read_u64(&[]);
    assert_eq!(value, Err(Error::UnexpectedEof));
}

#[test]
fn test_read_u64_two_groups() {
    // 300 = 0b10_0101100: groups 0x2c | 0x80 continuation, then 0x02.
    let buffer = [0xac, 0x02, 0x55];
    let value = read_u64(&buffer);
    assert_eq!(value, Ok((&buffer[2..], 300)));
}

#[test]
fn test_read_u64_truncates_past_64_bits() {
    // Digit 1 at position 0 and digit 1 at position 10: the high
    // group sits entirely above bit 63 and is dropped.
    let mut buffer = vec![0x81u8];
    buffer.extend_from_slice(&[0x80; 9]);
    buffer.push(0x01);
    let value = read_u64(&buffer);
    assert_eq!(value, Ok((&buffer[11..], 1)));
}

#[test]
fn test_read_container() {
    let buffer = [0x03, b'A', b'B', b'C', 0];
    let value = read_container(&buffer);
    assert_eq!(value, Ok((&buffer[4..], &b"ABC"[..])));

    let buffer = [0x00, b'A', b'B', b'C', 0];
    let value = read_container(&buffer);
    assert_eq!(value, Ok((&buffer[1..], &b""[..])));
}

#[test]
fn test_read_container_length_too_large() {
    let buffer = [0x04, b'A', b'B', b'C'];
    let value = read_container(&buffer);
    assert_eq!(value, Err(Error::UnexpectedEof));
}

#[test]
fn test_read_string() {
    let buffer = [0x03, b'A', b'B', b'C'];
    let value = read_string(&buffer);
    assert_eq!(value, Ok(String::from("ABC")));
}

#[test]
fn test_parse() {
    let buffer = [
        19, 0, 0, 0, // size of payload
        0xff, 0xff, 0xff, 0x07, //
        0x03, b'A', b'B', b'C', 0, //
        0x03, b'D', b'E', b'F', //
        0x05, 0x04, b'1', b'2', b'3', b'4',
    ];
    let value = parse(&buffer).unwrap();
    assert_eq!(value.len(), 2);
    assert_eq!(value.get(b"ABC"), Some(&b""[..]));
    assert_eq!(value.get(b"DEF"), Some(&b"\x041234"[..]));
    assert_eq!(value.get(b"GHI"), None);
}

#[test]
fn test_parse_buffer_len() {
    let buffer = [
        20, 0, 0, 0, // size of payload
    ];
    let value = parse(&buffer);
    assert!(matches!(value, Err(Error::BufferTooSmall(24))));
}

#[test]
fn test_parse_empty() {
    let buffer = [
        1, 0, 0, 0, // size of payload
        0,    // padding
        0xff, // should be ignored
    ];
    let value = parse(&buffer).unwrap();
    assert_eq!(value.len(), 0);
}

#[test]
fn test_parse_short_header() {
    let buffer = [1, 0];
    let value = parse(&buffer);
    assert!(matches!(value, Err(Error::UnexpectedEof)));
}

#[test]
fn test_parse_duplicate_key_last_wins() {
    let buffer = [
        11, 0, 0, 0, // size of payload
        0, // leading varint
        0x02, b'K', b'K', 0x01, b'x', //
        0x02, b'K', b'K', 0x01, b'y',
    ];
    let value = parse(&buffer).unwrap();
    assert_eq!(value.len(), 1);
    assert_eq!(value.get(b"KK"), Some(&b"y"[..]));
}

#[test]
fn test_parse_string_key_value_pairs() {
    let buffer = [
        12, 0, 0, 0, // size of payload
        0, // leading varint
        0x03, b'A', b'B', b'C', // key
        0x06, 0x05, b'h', b'e', b'l', b'l', b'o', // value: nested container
    ];
    let value = parse_string_key_value_pairs(&buffer).unwrap();
    assert_eq!(value.len(), 1);
    assert_eq!(value.get(&String::from("ABC")), Some(&String::from("hello")));
    assert_eq!(value.get(&String::from("DEF")), None);
}

#[test]
fn test_parse_string_key_value_pairs_bad_value() {
    let buffer = [
        5, 0, 0, 0, // size of payload
        0, // leading varint
        0x01, b'K', // key
        0x01, 0x81, // value whose nested container is unterminated
    ];
    let value = parse_string_key_value_pairs(&buffer);
    assert!(matches!(value, Err(Error::UnexpectedEof)));
}

#[test]
fn test_decode_hex() {
    assert_eq!(decode_hex(b"00ff10Ab"), Some(vec![0x00, 0xff, 0x10, 0xab]));
    assert_eq!(decode_hex(b""), Some(vec![]));
    assert_eq!(decode_hex(b"abc"), None);
    assert_eq!(decode_hex(b"zz"), None);
}
