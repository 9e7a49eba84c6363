use dolls_network::parser::{
    read_angle, read_bitset, read_boolean, read_entity_metadata, read_exact_bytes,
    read_exact_bytes_into_buffer, read_fixed_bitset, read_i16, read_i32, read_i64, read_i8,
    read_identifier, read_json, read_position, read_slot, read_string, read_teleport_flags,
    read_text_component, read_u16, read_u8, read_uuid, read_varint, read_varint_and_get_size,
    read_varlong, ByteReader, ParsingError, RELATIVE_X, RELATIVE_Y,
    ROTATE_VELOCITY_BASED_ON_DELTA_ROTATION,
};

fn reader(bytes: &[u8]) -> ByteReader {
    ByteReader::new(bytes.to_vec())
}

fn varint_of(bytes: &[u8]) -> u32 {
    read_varint(&mut reader(bytes)).unwrap()
}

#[test]
fn varint_known_values() {
    assert_eq!(varint_of(&[0x00]), 0);
    assert_eq!(varint_of(&[0x01]), 1);
    assert_eq!(varint_of(&[0x7f]), 127);
    assert_eq!(varint_of(&[0x80, 0x01]), 128);
    assert_eq!(varint_of(&[0xff, 0x01]), 255);
    assert_eq!(varint_of(&[0xdd, 0xc7, 0x01]), 25565);
    assert_eq!(varint_of(&[0xff, 0xff, 0xff, 0xff, 0x07]), 2147483647);
    assert_eq!(varint_of(&[0x80, 0x80, 0x80, 0x80, 0x08]), 2147483648);
    assert_eq!(varint_of(&[0xff, 0xff, 0xff, 0xff, 0x0f]), u32::MAX);
}

#[test]
fn varint_round_trip_on_samples() {
    for v in [0u32, 1, 127, 128, 300, 16383, 16384, 2097151, 2097152, 268435455, 268435456, u32::MAX] {
        let mut bytes = Vec::new();
        let mut x = v;
        loop {
            if x < 128 {
                bytes.push(x as u8);
                break;
            }
            bytes.push((x % 128) as u8 | 0x80);
            x /= 128;
        }
        let n = bytes.len();
        bytes.push(0x42);
        let mut r = ByteReader::new(bytes);
        assert_eq!(read_varint_and_get_size(&mut r).unwrap(), (v, n as u32));
        assert_eq!(r.remaining(), 1);
    }
}

#[test]
fn varint_reports_size_and_leaves_rest() {
    let mut r = reader(&[0xdd, 0xc7, 0x01, 0x05]);
    assert_eq!(read_varint_and_get_size(&mut r).unwrap(), (25565, 3));
    assert_eq!(r.remaining(), 1);
    assert_eq!(read_u8(&mut r).unwrap(), 5);
}

#[test]
fn varint_too_big_after_five_bytes() {
    let mut r = reader(&[0xff, 0xff, 0xff, 0xff, 0xff, 0x01]);
    assert!(matches!(read_varint(&mut r), Err(ParsingError::VarIntTooBig)));
    let mut r = reader(&[0x80, 0x80, 0x80, 0x80, 0x80]);
    assert!(matches!(read_varint_and_get_size(&mut r), Err(ParsingError::VarIntTooBig)));
}

#[test]
fn varint_truncated_is_eof() {
    assert!(matches!(read_varint(&mut reader(&[0x80])), Err(ParsingError::UnexpectedEof)));
    assert!(matches!(read_varint(&mut reader(&[])), Err(ParsingError::UnexpectedEof)));
}

#[test]
fn varlong_values_and_bounds() {
    assert_eq!(read_varlong(&mut reader(&[0x80, 0x01])).unwrap(), 128);
    let mut max = vec![0xffu8; 9];
    max.push(0x01);
    assert_eq!(read_varlong(&mut ByteReader::new(max)).unwrap(), u64::MAX);
    assert_eq!(
        read_varlong(&mut reader(&[0x80, 0x80, 0x80, 0x80, 0x08])).unwrap(),
        2147483648
    );
    let mut long = vec![0xffu8; 10];
    long.push(0x01);
    assert!(matches!(read_varlong(&mut ByteReader::new(long)), Err(ParsingError::VarLongTooBig)));
    assert!(matches!(read_varlong(&mut reader(&[0xff, 0xff])), Err(ParsingError::UnexpectedEof)));
}

#[test]
fn fixed_width_integers_are_big_endian() {
    assert_eq!(read_u8(&mut reader(&[0xfe])).unwrap(), 0xfe);
    assert_eq!(read_i8(&mut reader(&[0xff])).unwrap(), -1);
    assert_eq!(read_i8(&mut reader(&[0x7f])).unwrap(), 127);
    assert_eq!(read_u16(&mut reader(&[0x12, 0x34])).unwrap(), 0x1234);
    assert_eq!(read_i16(&mut reader(&[0xff, 0xfe])).unwrap(), -2);
    assert_eq!(read_i32(&mut reader(&[0x80, 0, 0, 0])).unwrap(), i32::MIN);
    assert_eq!(read_i32(&mut reader(&[0x00, 0x00, 0x63, 0xdd])).unwrap(), 25565);
    assert_eq!(read_i64(&mut reader(&[0xff; 8])).unwrap(), -1);
    assert_eq!(
        read_i64(&mut reader(&[0x01, 0x02, 0x03, 0x04, 0x05, 0x06, 0x07, 0x08])).unwrap(),
        0x0102030405060708
    );
    assert_eq!(
        read_position(&mut reader(&[0x01, 0x02, 0x03, 0x04, 0x05, 0x06, 0x07, 0x08])).unwrap(),
        0x0102030405060708
    );
    assert_eq!(read_angle(&mut reader(&[0x40])).unwrap(), 0x40);
}

#[test]
fn short_fixed_width_input_is_eof() {
    assert!(matches!(read_u8(&mut reader(&[])), Err(ParsingError::UnexpectedEof)));
    assert!(matches!(read_u16(&mut reader(&[1])), Err(ParsingError::UnexpectedEof)));
    assert!(matches!(read_i32(&mut reader(&[1, 2, 3])), Err(ParsingError::UnexpectedEof)));
    assert!(matches!(read_i64(&mut reader(&[0; 7])), Err(ParsingError::UnexpectedEof)));
}

#[test]
fn boolean_is_true_unless_zero() {
    assert!(!read_boolean(&mut reader(&[0x00])).unwrap());
    assert!(read_boolean(&mut reader(&[0x01])).unwrap());
    assert!(read_boolean(&mut reader(&[0x02])).unwrap());
}

#[test]
fn exact_bytes() {
    let mut r = reader(&[1, 2, 3, 4]);
    assert_eq!(read_exact_bytes(&mut r, 3).unwrap(), vec![1, 2, 3]);
    assert!(matches!(read_exact_bytes(&mut r, 2), Err(ParsingError::UnexpectedEof)));
    assert_eq!(r.remaining(), 1);
    let mut buf = vec![9, 9, 9, 9, 9];
    let mut r = reader(&[5, 6]);
    read_exact_bytes_into_buffer(&mut r, 2, &mut buf).unwrap();
    assert_eq!(buf, vec![5, 6]);
    assert!(read_exact_bytes_into_buffer(&mut r, 1, &mut buf).is_err());
    assert_eq!(buf, vec![5, 6]);
}

#[test]
fn strings() {
    let mut r = reader(&[3, b'a', b'b', b'c', 7]);
    assert_eq!(read_string(&mut r).unwrap(), "abc");
    assert_eq!(r.remaining(), 1);
    assert_eq!(read_string(&mut reader(&[0])).unwrap(), "");
    assert_eq!(read_string(&mut reader(&[2, 0xc3, 0xa9])).unwrap(), "\u{e9}");
    assert!(matches!(read_string(&mut reader(&[2, 0xff, 0xfe])), Err(ParsingError::InvalidUtf8)));
    assert!(matches!(read_string(&mut reader(&[5, b'a'])), Err(ParsingError::UnexpectedEof)));
    assert!(matches!(
        read_string(&mut reader(&[0xff, 0xff, 0xff, 0xff, 0xff])),
        Err(ParsingError::VarIntTooBig)
    ));
}

fn prefixed(body: &[u8]) -> Vec<u8> {
    let mut out = Vec::new();
    let mut x = body.len();
    loop {
        if x < 128 {
            out.push(x as u8);
            break;
        }
        out.push((x % 128) as u8 | 0x80);
        x /= 128;
    }
    out.extend_from_slice(body);
    out
}

#[test]
fn identifier_length_limit() {
    let ok = vec![b'a'; 32767];
    let got = read_identifier(&mut ByteReader::new(prefixed(&ok))).unwrap();
    assert_eq!(got.len(), 32767);
    let long = vec![b'a'; 32768];
    match read_identifier(&mut ByteReader::new(prefixed(&long))) {
        Err(ParsingError::IdentifierTooLong(s)) => assert_eq!(s.len(), 32768),
        _ => panic!("expected IdentifierTooLong"),
    }
    assert_eq!(read_identifier(&mut ByteReader::new(prefixed(b"minecraft:stone"))).unwrap(), "minecraft:stone");
}

#[test]
fn json_documents() {
    let v = read_json(&mut ByteReader::new(prefixed(br#"{"text":"hi","n":3}"#))).unwrap();
    assert_eq!(v["text"], serde_json::Value::String("hi".to_string()));
    assert_eq!(v["n"].as_i64(), Some(3));
    assert!(matches!(read_json(&mut ByteReader::new(prefixed(b"{"))), Err(ParsingError::Json(_))));
    assert!(matches!(read_json(&mut ByteReader::new(prefixed(&[0xff]))), Err(ParsingError::InvalidUtf8)));
}

#[test]
fn uuid_high_half_first() {
    let bytes: Vec<u8> = (1..=16).collect();
    let mut r = ByteReader::new(bytes.clone());
    let u = read_uuid(&mut r).unwrap();
    assert_eq!(u.as_u128(), 0x0102030405060708090a0b0c0d0e0f10);
    assert_eq!(r.remaining(), 0);
    assert!(matches!(read_uuid(&mut reader(&bytes[..15])), Err(ParsingError::UnexpectedEof)));
}

#[test]
fn bitset_of_words() {
    let mut bytes = vec![1u8, 0x80, 0, 0, 0, 0, 0, 0, 0b1000_0001, 0xaa];
    let mut r = ByteReader::new(bytes.clone());
    let bits = read_bitset(&mut r).unwrap();
    assert_eq!(bits.len(), 64);
    for (i, b) in bits.iter().enumerate() {
        assert_eq!(*b, i == 0 || i == 7 || i == 63, "bit {}", i);
    }
    assert_eq!(r.remaining(), 1);
    bytes.truncate(5);
    assert!(matches!(read_bitset(&mut ByteReader::new(bytes)), Err(ParsingError::UnexpectedEof)));
    assert_eq!(read_bitset(&mut reader(&[0])).unwrap(), Vec::<bool>::new());
}

#[test]
fn bitset_second_word() {
    let mut bytes = vec![2u8];
    bytes.extend_from_slice(&[0; 8]);
    bytes.extend_from_slice(&[0, 0, 0, 0, 0, 0, 0, 0x02]);
    let bits = read_bitset(&mut ByteReader::new(bytes)).unwrap();
    assert_eq!(bits.len(), 128);
    assert_eq!(bits.iter().filter(|b| **b).count(), 1);
    assert!(bits[65]);
}

#[test]
fn fixed_bitset_bit_order() {
    let bits = read_fixed_bitset(&mut reader(&[0b1011_0010]), 8).unwrap();
    assert_eq!(bits, vec![false, true, false, false, true, true, false, true]);
    assert!(!bits[0]);
    assert!(bits[1]);
    assert!(bits[4]);
    assert!(bits[5]);
    assert!(bits[7]);
}

#[test]
fn fixed_bitset_rounds_bytes_up() {
    let mut r = reader(&[0xff, 0x01, 0x77]);
    let bits = read_fixed_bitset(&mut r, 9).unwrap();
    assert_eq!(bits.len(), 9);
    assert!(bits.iter().all(|b| *b));
    assert_eq!(r.remaining(), 1);
    assert!(matches!(read_fixed_bitset(&mut reader(&[0xff]), 9), Err(ParsingError::UnexpectedEof)));
    assert_eq!(read_fixed_bitset(&mut reader(&[]), 0).unwrap(), Vec::<bool>::new());
}

#[test]
fn teleport_flags_keep_all_bits() {
    let f = read_teleport_flags(&mut reader(&[0, 0, 0x01, 0x03])).unwrap();
    assert_eq!(f.bits(), 0x103);
    assert!(f.contains(RELATIVE_X));
    assert!(f.contains(RELATIVE_Y));
    assert!(f.contains(ROTATE_VELOCITY_BASED_ON_DELTA_ROTATION));
    assert!(!f.contains(0x04));
    let g = read_teleport_flags(&mut reader(&[0x80, 0, 0, 0])).unwrap();
    assert_eq!(g.bits(), 0x8000_0000);
    assert!(matches!(read_teleport_flags(&mut reader(&[0, 0])), Err(ParsingError::UnexpectedEof)));
}

#[test]
fn unsupported_formats_fail_without_reading() {
    let mut r = reader(&[1, 2, 3]);
    assert!(matches!(read_entity_metadata(&mut r), Err(ParsingError::UnsupportedFormat)));
    assert!(matches!(read_slot(&mut r), Err(ParsingError::UnsupportedFormat)));
    assert!(matches!(read_text_component(&mut r), Err(ParsingError::UnsupportedFormat)));
    assert_eq!(r.remaining(), 3);
}

#[test]
fn overlong_varint_stops_after_five_bytes() {
    let mut r = reader(&[0x80, 0x80, 0x80, 0x80, 0x80, 0x01]);
    assert!(matches!(read_varint(&mut r), Err(ParsingError::VarIntTooBig)));
    assert_eq!(r.remaining(), 1);
    assert_eq!(read_u8(&mut r).unwrap(), 0x01);
}

#[test]
fn overlong_varlong_stops_after_ten_bytes() {
    let mut bytes = vec![0x80u8; 10];
    bytes.push(0x01);
    let mut r = ByteReader::new(bytes);
    assert!(matches!(read_varlong(&mut r), Err(ParsingError::VarLongTooBig)));
    assert_eq!(r.remaining(), 1);
}

#[test]
fn rejected_text_is_consumed() {
    let mut bytes = prefixed(b"{");
    bytes.push(0x07);
    let mut r = ByteReader::new(bytes);
    assert!(matches!(read_json(&mut r), Err(ParsingError::Json(_))));
    assert_eq!(r.remaining(), 1);
    let mut r = reader(&[2, 0xff, 0xfe, 0x07]);
    assert!(matches!(read_string(&mut r), Err(ParsingError::InvalidUtf8)));
    assert_eq!(r.remaining(), 1);
    let mut long = prefixed(&vec![b'a'; 32768]);
    long.push(0x07);
    let mut r = ByteReader::new(long);
    assert!(matches!(read_identifier(&mut r), Err(ParsingError::IdentifierTooLong(_))));
    assert_eq!(r.remaining(), 1);
}

#[test]
fn identifier_limit_counts_characters() {
    let two_byte = "\u{e9}".repeat(16384);
    assert_eq!(two_byte.len(), 32768);
    let got = read_identifier(&mut ByteReader::new(prefixed(two_byte.as_bytes()))).unwrap();
    assert_eq!(got, two_byte);
    let too_long = "\u{e9}".repeat(32768);
    assert!(matches!(
        read_identifier(&mut ByteReader::new(prefixed(too_long.as_bytes()))),
        Err(ParsingError::IdentifierTooLong(_))
    ));
}

#[test]
fn short_input_positions() {
    let mut r = reader(&[5, b'a', b'b']);
    assert!(matches!(read_string(&mut r), Err(ParsingError::UnexpectedEof)));
    assert_eq!(r.remaining(), 2);
    let mut r = reader(&[0x80, 0x80]);
    assert!(matches!(read_string(&mut r), Err(ParsingError::UnexpectedEof)));
    assert_eq!(r.remaining(), 0);
    let mut r = reader(&[1, 2, 3]);
    assert!(matches!(read_i32(&mut r), Err(ParsingError::UnexpectedEof)));
    assert_eq!(r.remaining(), 3);
    let mut r = reader(&[2, 0, 0, 0]);
    assert!(matches!(read_bitset(&mut r), Err(ParsingError::UnexpectedEof)));
    assert_eq!(r.remaining(), 3);
}
