//! Tests of the byte-level decoders: varints, serial types, records and
//! values.

use sqlite_reader::cell::{Record, RecordValue, SerialType};
use sqlite_reader::error::Error;
use sqlite_reader::strconv::{format_i64, format_u64, parse_u32, to_lower, contains_sub};
use sqlite_reader::text::{bytes_eq, is_valid_utf8, lex_lt};
use sqlite_reader::varint::{encode_varint, Varint};

#[test]
fn it_encodes_from_readable() {
    let bytes: &[u8] = b"\x07";
    let expected = Varint {
        value: 7,
        byte_len: 1,
    };
    assert_eq!(Varint::new(bytes, 0).unwrap(), expected);

    let bytes: &[u8] = b"\x1b";
    let expected = Varint {
        value: 27,
        byte_len: 1,
    };
    assert_eq!(Varint::new(bytes, 0).unwrap(), expected);

    let bytes: &[u8] = b"\x81\x47";
    let expected = Varint {
        value: 199,
        byte_len: 2,
    };
    assert_eq!(Varint::new(bytes, 0).unwrap(), expected);
}

#[test]
fn varint_round_trip() {
    for v in [
        0u64,
        1,
        127,
        128,
        199,
        16383,
        16384,
        (1 << 56) - 1,
        1 << 56,
        (1 << 63) - 1,
        1 << 63,
        u64::MAX,
    ] {
        let bytes = encode_varint(v);
        assert!(1 <= bytes.len() && bytes.len() <= 9);
        let decoded = Varint::new(&bytes, 0).unwrap();
        assert_eq!(decoded.value, v);
        assert_eq!(decoded.byte_len, bytes.len());
    }
}

#[test]
fn varint_nine_bytes_uses_full_final_byte() {
    // eight continuation bytes carrying zero, then a full final byte:
    // with only seven bits of the ninth byte this would be 127
    let bytes: &[u8] = &[0x80, 0x80, 0x80, 0x80, 0x80, 0x80, 0x80, 0x80, 0xff];
    let v = Varint::new(bytes, 0).unwrap();
    assert_eq!(v.value, 255);
    assert_eq!(v.byte_len, 9);

    let bytes = encode_varint(u64::MAX);
    assert_eq!(bytes.len(), 9);
    assert_eq!(Varint::new(&bytes, 0).unwrap().value, u64::MAX);
}

#[test]
fn varint_empty_input_is_eof() {
    let bytes: &[u8] = b"";
    assert_eq!(Varint::new(bytes, 0), Err(Error::UnexpectedEof));
    let bytes: &[u8] = &[0x81];
    assert_eq!(Varint::new(bytes, 0), Err(Error::UnexpectedEof));
}

#[test]
fn serial_types_by_code() {
    assert_eq!(SerialType::new(0).unwrap(), SerialType::Null);
    assert_eq!(SerialType::new(1).unwrap(), SerialType::TwosComplement8);
    assert_eq!(SerialType::new(6).unwrap(), SerialType::TwosComplement64);
    assert_eq!(SerialType::new(8).unwrap(), SerialType::Zero);
    assert_eq!(SerialType::new(9).unwrap(), SerialType::One);
    assert_eq!(SerialType::new(12).unwrap(), SerialType::Blob(0));
    assert_eq!(SerialType::new(18).unwrap(), SerialType::Blob(3));
    assert_eq!(SerialType::new(13).unwrap(), SerialType::Text(0));
    assert_eq!(SerialType::new(19).unwrap(), SerialType::Text(3));
    assert_eq!(SerialType::new(10), Err(Error::InvalidSerialType(10)));
    assert_eq!(SerialType::new(11), Err(Error::InvalidSerialType(11)));
}

#[test]
fn record_decodes_typed_values() {
    // header: size 3, then serial types 1 (8-bit int) and 19 (3-byte text);
    // bodies: 5, then "abc"
    let bytes: &[u8] = &[3, 1, 19, 5, b'a', b'b', b'c'];
    let rec = Record::new(bytes).unwrap();
    assert!(matches!(rec.column(0), Some(RecordValue::Int(5))));
    match rec.column(1) {
        Some(RecordValue::Text(t)) => assert_eq!(t, b"abc".to_vec()),
        other => panic!("unexpected value: {other:?}"),
    }
    assert!(rec.column(2).is_none());
}

#[test]
fn record_negative_and_wide_integers() {
    // serial type 1: -1 as two's complement; serial type 4: 32-bit value
    let bytes: &[u8] = &[3, 1, 4, 0xff, 0x01, 0x02, 0x03, 0x04];
    let rec = Record::new(bytes).unwrap();
    assert!(matches!(rec.column(0), Some(RecordValue::Int(-1))));
    assert!(matches!(rec.column(1), Some(RecordValue::Int(0x01020304))));

    // serial type 6: 64-bit minimum
    let bytes: &[u8] = &[2, 6, 0x80, 0, 0, 0, 0, 0, 0, 0];
    let rec = Record::new(bytes).unwrap();
    assert!(matches!(rec.column(0), Some(RecordValue::Int(i64::MIN))));
}

#[test]
fn forty_eight_bit_integer_is_unimplemented() {
    // serial type 5 is deliberately not implemented: a typed error, no panic
    let bytes: &[u8] = &[2, 5, 0, 0, 0, 0, 0, 1];
    assert_eq!(Record::new(bytes), Err(Error::Unimplemented));
}

#[test]
fn invalid_utf8_text_is_rejected() {
    // serial type 15: text of one byte, not valid UTF-8
    let bytes: &[u8] = &[2, 15, 0xff];
    assert_eq!(Record::new(bytes), Err(Error::InvalidUtf8));
}

#[test]
fn record_header_overrun_is_rejected() {
    // declared header size 2, but the first serial-type varint spans two
    // bytes and crosses it
    let bytes: &[u8] = &[2, 0x81, 0x00];
    assert_eq!(Record::new(bytes), Err(Error::RecordHeaderOverrun));
}

#[test]
fn it_can_compare_with_strings() {
    let val = RecordValue::Text(b"foo".to_vec());
    assert!(val.matches_text(b"foo"));
    assert!(!val.matches_text(b"bar"));
    assert!(!RecordValue::Int(7).matches_text(b"7"));
    // byte-wise ordering of the text, as the index probe compares keys
    assert!(lex_lt(b"bar", b"foo"));
    assert!(lex_lt(b"foo", b"zoo"));
    assert!(!lex_lt(b"foo", b"foo"));
}

#[test]
fn utf8_validation() {
    assert!(is_valid_utf8(b"hello"));
    assert!(is_valid_utf8("héllo — ☃".as_bytes()));
    assert!(!is_valid_utf8(&[0xff]));
    assert!(!is_valid_utf8(&[0xc3]));
    assert!(!is_valid_utf8(&[0xc0, 0x80])); // overlong
    assert!(!is_valid_utf8(&[0xed, 0xa0, 0x80])); // surrogate
}

#[test]
fn decimal_formatting_and_parsing() {
    assert_eq!(format_u64(0), b"0".to_vec());
    assert_eq!(format_u64(1234567890), b"1234567890".to_vec());
    assert_eq!(format_i64(-45), b"-45".to_vec());
    assert_eq!(format_i64(i64::MIN), b"-9223372036854775808".to_vec());
    assert_eq!(parse_u32(b"0"), Some(0));
    assert_eq!(parse_u32(b"4294967295"), Some(u32::MAX));
    assert_eq!(parse_u32(b"4294967296"), None);
    assert_eq!(parse_u32(b""), None);
    assert_eq!(parse_u32(b"12a"), None);
}

#[test]
fn byte_utilities() {
    assert!(bytes_eq(b"abc", b"abc"));
    assert!(!bytes_eq(b"abc", b"abd"));
    assert_eq!(to_lower(b"Primary KEY"), b"primary key".to_vec());
    assert!(contains_sub(b"id integer primary key", b"primary key"));
    assert!(!contains_sub(b"id integer", b"primary key"));
}

#[test]
fn zero_one_float_and_blob_serials() {
    // serial types 8 and 9 carry no body and mean 0 and 1
    let bytes: &[u8] = &[3, 8, 9];
    let rec = Record::new(bytes).unwrap();
    assert!(matches!(rec.column(0), Some(RecordValue::Int(0))));
    assert!(matches!(rec.column(1), Some(RecordValue::Int(1))));

    // serial type 7: a double, kept as its raw bits
    let one = 0x3ff0000000000000u64;
    let mut bytes = vec![2u8, 7];
    bytes.extend_from_slice(&one.to_be_bytes());
    let rec = Record::new(&bytes).unwrap();
    assert_eq!(rec.column(0), Some(RecordValue::Float(one)));

    // serial type 18: a three-byte blob
    let bytes: &[u8] = &[2, 18, 0xde, 0xad, 0x01];
    let rec = Record::new(bytes).unwrap();
    assert_eq!(rec.column(0), Some(RecordValue::Blob(vec![0xde, 0xad, 0x01])));
}
