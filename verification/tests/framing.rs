use mchat::errors::PacketError;
use mchat::framing::{block_until_packet_id_from, frame_packet, read_packet_from, PrefixStatus};
use mchat::packet::Packet;

#[test]
fn frame_packet_prefixes_length() {
    let mut p = Packet::new();
    p.write_slice(&[0x00, 0x01, 0x02]);
    assert_eq!(frame_packet(&p), Ok(vec![0x03, 0x00, 0x01, 0x02]));
}

#[test]
fn frame_packet_empty_payload() {
    let p = Packet::new();
    assert_eq!(frame_packet(&p), Ok(vec![0x00]));
}

#[test]
fn frame_packet_long_length_prefix() {
    let mut p = Packet::new();
    p.write_slice(&vec![0xAB; 300]);
    let framed = frame_packet(&p).unwrap();
    assert_eq!(framed[0], 0xAC);
    assert_eq!(framed[1], 0x02);
    assert_eq!(framed.len(), 302);
}

#[test]
fn push_prefix_byte_reports_status() {
    let mut p = Packet::new();
    assert_eq!(p.push_prefix_byte(0x80), PrefixStatus::NeedMore);
    assert_eq!(p.push_prefix_byte(0x81), PrefixStatus::NeedMore);
    assert_eq!(p.push_prefix_byte(0x05), PrefixStatus::Complete);
    assert_eq!(p.buffer, vec![0x80, 0x81, 0x05]);
}

#[test]
fn push_prefix_byte_overflows_at_six() {
    let mut p = Packet::new();
    for _ in 0..5 {
        assert_eq!(p.push_prefix_byte(0x80), PrefixStatus::NeedMore);
    }
    assert_eq!(p.push_prefix_byte(0x00), PrefixStatus::Overflow);
}

#[test]
fn read_packet_from_whole_frame() {
    let data = [0x02, 0x00, 0x41, 0x99];
    let (opt, next) = read_packet_from(&data, 0).unwrap();
    let packet = opt.unwrap();
    assert_eq!(next, 3);
    assert_eq!(packet.buffer, vec![0x02, 0x00, 0x41]);
    assert_eq!(packet.cursor, 2);
    assert_eq!(packet.get_protocol_id(), Some(0x00));
}

#[test]
fn read_packet_from_oversized_prefix_skips_six_bytes() {
    let data = [0x80, 0x80, 0x80, 0x80, 0x80, 0x80, 0x01, 0x07];
    let (opt, next) = read_packet_from(&data, 0).unwrap();
    assert!(opt.is_none());
    assert_eq!(next, 6);
    let (opt2, next2) = read_packet_from(&data, next).unwrap();
    let packet = opt2.unwrap();
    assert_eq!(next2, 8);
    assert_eq!(packet.get_protocol_id(), Some(0x07));
}

#[test]
fn read_packet_from_truncated_payload_fails() {
    let data = [0x05, 0x01, 0x02];
    assert!(matches!(read_packet_from(&data, 0), Err(PacketError::UnexpectedEof)));
}

#[test]
fn read_packet_from_eof_mid_prefix_fails() {
    let data = [0x80, 0x80];
    assert!(matches!(read_packet_from(&data, 0), Err(PacketError::UnexpectedEof)));
}

#[test]
fn read_packet_from_empty_source_fails() {
    let data: [u8; 0] = [];
    assert!(matches!(read_packet_from(&data, 0), Err(PacketError::UnexpectedEof)));
}

#[test]
fn read_packet_from_zero_length_frame_fails() {
    let data = [0x00, 0x01];
    assert!(matches!(read_packet_from(&data, 0), Err(PacketError::FramingError)));
}

#[test]
fn block_until_skips_other_ids() {
    let mut data: Vec<u8> = Vec::new();
    data.extend_from_slice(&[0x01, 0x01]);
    data.extend_from_slice(&[0x02, 0x05, 0xAA]);
    data.extend_from_slice(&[0x03, 0x02, 0xBB, 0xCC]);
    let (mut packet, next) = block_until_packet_id_from(&data, 0, 0x02).unwrap();
    assert_eq!(next, data.len());
    assert_eq!(packet.get_protocol_id(), Some(0x02));
    assert_eq!(packet.buffer, vec![0x03, 0x02, 0xBB, 0xCC]);
    assert_eq!(packet.read_slice(2), Ok(vec![0xBB, 0xCC]));
}

#[test]
fn block_until_skips_oversized_prefix() {
    let mut data: Vec<u8> = Vec::new();
    data.extend_from_slice(&[0x80, 0x80, 0x80, 0x80, 0x80, 0x80]);
    data.extend_from_slice(&[0x01, 0x09]);
    let (packet, next) = block_until_packet_id_from(&data, 0, 0x09).unwrap();
    assert_eq!(next, 8);
    assert_eq!(packet.get_protocol_id(), Some(0x09));
}

#[test]
fn block_until_exhausts_source() {
    let data = [0x01, 0x01, 0x01, 0x05];
    assert!(matches!(
        block_until_packet_id_from(&data, 0, 0x02),
        Err(PacketError::UnexpectedEof)
    ));
}

#[test]
fn block_until_propagates_malformed_length() {
    let data = [0xFF, 0xFF, 0xFF, 0xFF, 0x0F, 0x00];
    assert!(matches!(
        block_until_packet_id_from(&data, 0, 0x02),
        Err(PacketError::FramingError)
    ));
}
