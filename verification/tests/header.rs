use nebula::protocol::header::{handshake_subtype, message_type, Header, LEN, VERSION};
use nebula::protocol::Error;

#[test]
fn encode_matches_real_nebula_stage0_bytes() {
    let h = Header {
        version: VERSION,
        type_: message_type::HANDSHAKE,
        subtype: handshake_subtype::IX_PSK0,
        remote_index: 0,
        message_counter: 1,
    };
    let mut out = [0u8; LEN];
    h.encode(&mut out);
    assert_eq!(
        out,
        [0x10, 0x00, 0x00, 0x00, 0x00, 0x00, 0x00, 0x00, 0x00, 0x00, 0x00, 0x00, 0x00, 0x00, 0x00, 0x01]
    );
}

#[test]
fn parse_round_trips_encode() {
    let h = Header {
        version: VERSION,
        type_: message_type::MESSAGE,
        subtype: 0,
        remote_index: 0xdeadbeef,
        message_counter: 0x0102030405060708,
    };
    let mut buf = [0u8; LEN];
    h.encode(&mut buf);
    let parsed = Header::parse(&buf).unwrap();
    assert_eq!(parsed, h);
}

#[test]
fn parse_rejects_short_buffer() {
    let err = Header::parse(&[0u8; 15]).unwrap_err();
    assert!(matches!(err, Error::HeaderTooShort { need: LEN, got: 15 }));
}

#[test]
fn version_and_type_share_a_byte() {
    let h = Header { version: 1, type_: 3, subtype: 9, remote_index: 0x01020304, message_counter: 5 };
    let mut out = [0u8; LEN];
    h.encode(&mut out);
    assert_eq!(out, [0x13, 9, 0, 0, 1, 2, 3, 4, 0, 0, 0, 0, 0, 0, 0, 5]);
    let wide = Header { version: 0x21, type_: 0x43, ..h };
    wide.encode(&mut out);
    assert_eq!(Header::parse(&out).unwrap(), h);
}

#[test]
fn what_follows_a_header_is_not_read() {
    let mut packet = vec![0x10u8; 40];
    packet[1] = 0;
    assert_eq!(Header::parse(&packet).unwrap(), Header::parse(&packet[..16]).unwrap());
}
