use mchat::errors::PacketError;
use mchat::packet::Packet;

#[test]
fn varint_zero_encodes_one_zero_byte() {
    let mut p = Packet::new();
    assert!(p.write_varint(0).is_ok());
    assert_eq!(p.buffer, vec![0x00]);
}

#[test]
fn varint_300_encodes_two_bytes() {
    let mut p = Packet::new();
    assert!(p.write_varint(300).is_ok());
    assert_eq!(p.buffer, vec![0xAC, 0x02]);
}

#[test]
fn varint_known_encodings() {
    let cases: Vec<(i32, Vec<u8>)> = vec![
        (1, vec![0x01]),
        (127, vec![0x7F]),
        (128, vec![0x80, 0x01]),
        (759, vec![0xF7, 0x05]),
        (2097151, vec![0xFF, 0xFF, 0x7F]),
        (2147483647, vec![0xFF, 0xFF, 0xFF, 0xFF, 0x07]),
    ];
    for (value, expected) in cases {
        let mut p = Packet::new();
        assert!(p.write_varint(value).is_ok());
        assert_eq!(p.buffer, expected);
    }
}

#[test]
fn varint_round_trip() {
    for value in [0i32, 1, 2, 127, 128, 255, 300, 16384, 2097151, 2147483646, 2147483647] {
        let mut p = Packet::new();
        assert!(p.write_varint(value).is_ok());
        assert_eq!(p.read_varint(), Ok(value));
        assert_eq!(p.cursor, p.buffer.len());
    }
}

#[test]
fn varint_negative_round_trip() {
    let mut p = Packet::new();
    assert!(p.write_varint(-1).is_ok());
    assert_eq!(p.buffer, vec![0xFF, 0xFF, 0xFF, 0xFF, 0x0F]);
    assert_eq!(p.read_varint(), Ok(-1));
}

#[test]
fn varint_six_continuation_bytes_fail() {
    let mut p = Packet::from_bytes(&[0x80, 0x80, 0x80, 0x80, 0x80, 0x80]);
    assert_eq!(p.read_varint(), Err(PacketError::FramingError));
    assert_eq!(p.cursor, 5);
}

#[test]
fn varint_five_continuation_bytes_fail() {
    let mut p = Packet::from_bytes(&[0x80, 0x80, 0x80, 0x80, 0x80]);
    assert_eq!(p.read_varint(), Err(PacketError::FramingError));
    assert_eq!(p.cursor, 5);
}

#[test]
fn varint_truncated_fails() {
    let mut p = Packet::from_bytes(&[0x80, 0x80]);
    assert_eq!(p.read_varint(), Err(PacketError::FramingError));
    assert_eq!(p.cursor, 2);
}

#[test]
fn varint_empty_buffer_fails() {
    let mut p = Packet::new();
    assert_eq!(p.read_varint(), Err(PacketError::FramingError));
    assert_eq!(p.cursor, 0);
}

#[test]
fn string_round_trip() {
    for text in ["", "hello", "localhost", "s\u{00E9}ance \u{2713}"] {
        let mut p = Packet::new();
        assert!(p.write_string(text).is_ok());
        assert_eq!(p.read_string(), Ok(String::from(text)));
        assert_eq!(p.cursor, p.buffer.len());
    }
}

#[test]
fn string_length_counts_bytes_not_chars() {
    let mut p = Packet::new();
    assert!(p.write_string("\u{00E9}").is_ok());
    assert_eq!(p.buffer, vec![0x02, 0xC3, 0xA9]);
}

#[test]
fn read_string_invalid_utf8_fails() {
    let mut p = Packet::from_bytes(&[0x02, 0xFF, 0xFE]);
    assert_eq!(p.read_string(), Err(PacketError::EncodingError));
    assert_eq!(p.cursor, 1);
}

#[test]
fn read_string_length_overrun_fails() {
    let mut p = Packet::from_bytes(&[0x05, b'a']);
    assert_eq!(p.read_string(), Err(PacketError::FramingError));
    assert_eq!(p.cursor, 1);
}

#[test]
fn read_slice_exact_remaining_succeeds() {
    let mut p = Packet::from_bytes(&[1, 2, 3]);
    assert_eq!(p.read_slice(3), Ok(vec![1, 2, 3]));
    assert_eq!(p.cursor, 3);
}

#[test]
fn read_slice_past_end_fails() {
    let mut p = Packet::from_bytes(&[1, 2, 3]);
    assert_eq!(p.read_slice(4), Err(PacketError::FramingError));
    assert_eq!(p.cursor, 0);
}

#[test]
fn read_slice_advances_cursor() {
    let mut p = Packet::from_bytes(&[9, 8, 7, 6]);
    assert_eq!(p.read_slice(2), Ok(vec![9, 8]));
    assert_eq!(p.read_slice(2), Ok(vec![7, 6]));
    assert_eq!(p.read_slice(1), Err(PacketError::FramingError));
}

#[test]
fn write_slice_appends_verbatim() {
    let mut p = Packet::new();
    p.write_slice(&[1, 2]);
    p.write_slice(&[]);
    p.write_slice(&[3]);
    assert_eq!(p.buffer, vec![1, 2, 3]);
    assert_eq!(p.cursor, 0);
}

#[test]
fn read_protocol_id_takes_one_byte() {
    let mut p = Packet::from_bytes(&[0x07, 0xAA]);
    assert_eq!(p.get_protocol_id(), None);
    assert_eq!(p.read_protocol_id(), Ok(0x07));
    assert_eq!(p.get_protocol_id(), Some(0x07));
    assert_eq!(p.cursor, 1);
}

#[test]
fn read_protocol_id_on_empty_fails() {
    let mut p = Packet::new();
    assert_eq!(p.read_protocol_id(), Err(PacketError::FramingError));
    assert_eq!(p.get_protocol_id(), None);
}

#[test]
fn constructors_initialise_fields() {
    let p = Packet::from_bytes(&[4, 5]);
    assert_eq!(p.buffer, vec![4, 5]);
    assert_eq!(p.cursor, 0);
    assert_eq!(p.get_protocol_id(), None);

    let q = Packet::with_size(3);
    assert_eq!(q.buffer, vec![0, 0, 0]);
    assert_eq!(q.cursor, 0);

    let r = Packet::new();
    assert!(r.buffer.is_empty());
    assert_eq!(r.cursor, 0);
}
