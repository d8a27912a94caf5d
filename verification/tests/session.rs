use mchat::errors::PacketError;
use mchat::framing::frame_packet;
use mchat::packet::Packet;
use mchat::session::{
    build_chat_message, build_handshake, build_login_start, build_status_request,
    parse_login_success, SessionState, PROTOCOL_VERSION,
};

#[test]
fn handshake_payload_bytes() {
    let packet = build_handshake("localhost", 25565, 1).unwrap();
    let expected = vec![
        0x00, 0xF7, 0x05, 0x09, 0x6C, 0x6F, 0x63, 0x61, 0x6C, 0x68, 0x6F, 0x73, 0x74, 0x63,
        0xDD, 0x01,
    ];
    assert_eq!(packet.buffer, expected);
    assert_eq!(packet.cursor, 0);
    assert_eq!(packet.get_protocol_id(), None);
}

#[test]
fn handshake_frame_bytes() {
    let packet = build_handshake("localhost", 25565, 1).unwrap();
    let framed = frame_packet(&packet).unwrap();
    assert_eq!(framed[0], 0x10);
    assert_eq!(&framed[1..], &packet.buffer[..]);
}

#[test]
fn handshake_login_next_state() {
    let packet = build_handshake("localhost", 25565, 2).unwrap();
    assert_eq!(packet.buffer[packet.buffer.len() - 1], 0x02);
}

#[test]
fn handshake_declares_fixed_protocol_version() {
    assert_eq!(PROTOCOL_VERSION, 759);
    let packet = build_handshake("h", 0, 1).unwrap();
    assert_eq!(packet.buffer, vec![0x00, 0xF7, 0x05, 0x01, b'h', 0x00, 0x00, 0x01]);
}

#[test]
fn handshake_decodes_back() {
    let mut packet = build_handshake("localhost", 25565, 1).unwrap();
    assert_eq!(packet.read_varint(), Ok(0x00));
    assert_eq!(packet.read_varint(), Ok(759));
    assert_eq!(packet.read_string(), Ok(String::from("localhost")));
    assert_eq!(packet.read_slice(2), Ok(vec![0x63, 0xDD]));
    assert_eq!(packet.read_varint(), Ok(1));
    assert_eq!(packet.cursor, packet.buffer.len());
}

#[test]
fn login_start_payload_bytes() {
    let packet = build_login_start("extremq").unwrap();
    let expected = vec![0x00, 0x07, b'e', b'x', b't', b'r', b'e', b'm', b'q', 0x00];
    assert_eq!(packet.buffer, expected);
}

#[test]
fn status_request_payload_bytes() {
    let packet = build_status_request();
    assert_eq!(packet.buffer, vec![0x00]);
}

#[test]
fn chat_payload_bytes() {
    let packet = build_chat_message("hi", 0x0102030405060708).unwrap();
    let mut expected = vec![0x04, 0x02, b'h', b'i'];
    expected.extend_from_slice(&[0x01, 0x02, 0x03, 0x04, 0x05, 0x06, 0x07, 0x08]);
    expected.extend_from_slice(&[0x00; 8]);
    expected.extend_from_slice(&[0x00, 0x00]);
    assert_eq!(packet.buffer, expected);
}

#[test]
fn chat_timestamp_is_big_endian() {
    let packet = build_chat_message("", 258).unwrap();
    let expected = vec![
        0x04, 0x00, 0x00, 0x00, 0x00, 0x00, 0x00, 0x00, 0x01, 0x02, 0x00, 0x00, 0x00, 0x00,
        0x00, 0x00, 0x00, 0x00, 0x00, 0x00,
    ];
    assert_eq!(packet.buffer, expected);
}

#[test]
fn parse_login_success_reads_uuid_and_name() {
    let mut bytes: Vec<u8> = Vec::new();
    let uuid: Vec<u8> = (1..=16).collect();
    bytes.extend_from_slice(&uuid);
    bytes.push(0x03);
    bytes.extend_from_slice(b"abc");
    let mut packet = Packet::from_bytes(&bytes);
    let (got_uuid, got_name) = parse_login_success(&mut packet).unwrap();
    assert_eq!(got_uuid, uuid);
    assert_eq!(got_name, "abc");
    assert_eq!(packet.cursor, bytes.len());
}

#[test]
fn parse_login_success_short_uuid_fails() {
    let mut packet = Packet::from_bytes(&[0x01, 0x02]);
    assert!(matches!(
        parse_login_success(&mut packet),
        Err(PacketError::FramingError)
    ));
}

#[test]
fn session_state_phases() {
    let mut state = SessionState::new();
    assert!(!state.needs_redial());
    state.mark_handshake_performed();
    assert!(state.needs_redial());
    state.mark_handshake_performed();
    assert!(state.needs_redial());
}
