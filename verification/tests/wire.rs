use nebula::protocol::wire::nebula_meta::MessageType;
use nebula::protocol::wire::{
    Addr, NebulaHandshake, NebulaHandshakeDetails, NebulaMeta, NebulaMetaDetails, V4AddrPort,
    V6AddrPort,
};

#[test]
fn nebula_handshake_round_trips() {
    let msg = NebulaHandshake {
        details: Some(NebulaHandshakeDetails {
            cert: vec![1, 2, 3],
            initiator_index: 42,
            responder_index: 0,
            cookie: 0,
            time: 1_234_567_890,
            cert_version: 2,
        }),
        hmac: vec![],
    };
    let buf = msg.encode_to_vec();
    let decoded = NebulaHandshake::decode(buf.as_slice()).unwrap();
    assert_eq!(decoded, msg);
}

#[test]
fn a_handshake_is_written_field_by_field() {
    let msg = NebulaHandshake {
        details: Some(NebulaHandshakeDetails {
            cert: vec![1, 2, 3],
            initiator_index: 42,
            responder_index: 300,
            cookie: 0,
            time: 1,
            cert_version: 2,
        }),
        hmac: vec![9],
    };
    assert_eq!(
        msg.encode_to_vec(),
        vec![
            0x0a, 14, 0x0a, 3, 1, 2, 3, 0x10, 42, 0x18, 0xac, 0x02, 0x28, 1, 0x40, 2, 0x12, 1, 9
        ]
    );
}

#[test]
fn an_empty_handshake_takes_no_bytes() {
    let msg = NebulaHandshake { details: None, hmac: vec![] };
    assert!(msg.encode_to_vec().is_empty());
    assert_eq!(NebulaHandshake::decode(&[]).unwrap(), msg);
}

#[test]
fn unknown_fields_are_skipped() {
    let bytes = [0x38, 0x05, 0x42, 2, 7, 7, 0x12, 1, 9, 0x4d, 1, 2, 3, 4];
    let msg = NebulaHandshake::decode(&bytes).unwrap();
    assert_eq!(msg, NebulaHandshake { details: None, hmac: vec![9] });
}

#[test]
fn groups_are_skipped_to_their_end() {
    let bytes = [0x33, 0x08, 0x01, 0x34, 0x12, 1, 9];
    let msg = NebulaHandshake::decode(&bytes).unwrap();
    assert_eq!(msg, NebulaHandshake { details: None, hmac: vec![9] });
    assert!(NebulaHandshake::decode(&[0x33, 0x08, 0x01]).is_err());
    assert!(NebulaHandshake::decode(&[0x34]).is_err());
}

#[test]
fn pieces_of_a_message_are_put_together() {
    let bytes = [0x0a, 2, 0x10, 7, 0x0a, 2, 0x18, 8];
    let details = NebulaHandshake::decode(&bytes).unwrap().details.unwrap();
    assert_eq!((details.initiator_index, details.responder_index), (7, 8));
}

#[test]
fn cut_and_mistyped_messages_are_refused() {
    assert!(NebulaHandshake::decode(&[0x0a, 5, 1]).is_err());
    assert!(NebulaHandshake::decode(&[0x08, 1]).is_err());
    assert!(NebulaHandshake::decode(&[0x80]).is_err());
    assert!(NebulaMeta::decode(&[0x12, 9]).is_err());
}

#[test]
fn nebula_meta_round_trips() {
    let msg = NebulaMeta {
        type_: MessageType::HostQueryReply.as_i32(),
        details: Some(NebulaMetaDetails {
            vpn_addr: Some(Addr { hi: 1, lo: u64::MAX }),
            v4_addr_ports: vec![
                V4AddrPort { addr: 0xc000_0205, port: 4242 },
                V4AddrPort { addr: 0, port: 0 },
            ],
            v6_addr_ports: vec![V6AddrPort { hi: 5, lo: 6, port: 7 }],
        }),
    };
    assert_eq!(NebulaMeta::decode(&msg.encode_to_vec()).unwrap(), msg);
}

#[test]
fn a_meta_message_is_written_field_by_field() {
    let msg = NebulaMeta {
        type_: MessageType::HostUpdateNotification.as_i32(),
        details: Some(NebulaMetaDetails {
            vpn_addr: Some(Addr { hi: 0, lo: 5 }),
            v4_addr_ports: vec![V4AddrPort { addr: 1, port: 2 }],
            v6_addr_ports: vec![V6AddrPort { hi: 0, lo: 3, port: 4 }],
        }),
    };
    assert_eq!(
        msg.encode_to_vec(),
        vec![
            0x08, 3, 0x12, 16, 0x12, 4, 8, 1, 16, 2, 0x22, 4, 16, 3, 24, 4, 0x32, 2, 16, 5
        ]
    );
}

#[test]
fn negative_types_survive() {
    let msg = NebulaMeta { type_: -1, details: None };
    let bytes = msg.encode_to_vec();
    assert_eq!(bytes.len(), 11);
    assert_eq!(NebulaMeta::decode(&bytes).unwrap(), msg);
}

#[test]
fn message_types_have_their_numbers() {
    for (t, n) in [
        (MessageType::Unset, 0),
        (MessageType::HostQuery, 1),
        (MessageType::HostQueryReply, 2),
        (MessageType::HostUpdateNotification, 3),
        (MessageType::HostMovedNotification, 4),
        (MessageType::HostPunchNotification, 5),
        (MessageType::HostWhoami, 6),
        (MessageType::HostWhoamiReply, 7),
        (MessageType::PathCheck, 8),
        (MessageType::PathCheckReply, 9),
        (MessageType::HostUpdateNotificationAck, 10),
    ] {
        assert_eq!(t.as_i32(), n);
    }
}

#[test]
fn groups_may_nest_a_hundred_deep() {
    let nested = |n: usize| {
        let mut b = vec![0x7bu8; n];
        b.extend(vec![0x7cu8; n]);
        b
    };
    assert!(NebulaHandshake::decode(&nested(100)).is_ok());
    assert!(NebulaHandshake::decode(&nested(101)).is_err());
    let in_details = |n: usize| {
        let mut b = vec![0x0a, (2 * n % 128 + 128) as u8, (2 * n / 128) as u8];
        b.extend(nested(n));
        b
    };
    assert!(NebulaHandshake::decode(&in_details(99)).is_ok());
    assert!(NebulaHandshake::decode(&in_details(100)).is_err());
    assert!(NebulaHandshake::decode(&[0x7b, 0x74]).is_err());
}
