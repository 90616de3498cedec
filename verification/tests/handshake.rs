use nebula::protocol::handshake::{
    answer_payload, assign_keys, finish_initiator, opening_payload, payload_details, respond, stage0,
    Cipher,
};
use nebula::protocol::transport::Transport;
use nebula::protocol::wire::{NebulaHandshake, NebulaHandshakeDetails};
use nebula::protocol::Error;

fn keypair() -> ([u8; 32], Vec<u8>) {
    let params: snow::params::NoiseParams = "Noise_IX_25519_AESGCM_SHA256".parse().unwrap();
    let kp = snow::Builder::new(params).generate_keypair().unwrap();
    (kp.private.try_into().unwrap(), kp.public)
}

#[test]
fn full_ix_handshake_completes_between_two_local_parties() {
    let (initiator_key, initiator_pub) = keypair();
    let (responder_key, responder_pub) = keypair();

    let initiator_cert_bytes = b"initiator-cert-bytes".to_vec();
    let responder_cert_bytes = b"responder-cert-bytes".to_vec();

    let (hs, stage0_msg) =
        stage0(Cipher::AesGcm, &initiator_key, initiator_cert_bytes.clone(), 42).unwrap();

    let (their_details_at_responder, stage2_msg, responder_keys) =
        respond(Cipher::AesGcm, &responder_key, responder_cert_bytes.clone(), 99, &stage0_msg).unwrap();
    assert_eq!(their_details_at_responder.cert, initiator_cert_bytes);
    assert_eq!(their_details_at_responder.initiator_index, 42);

    let (their_details_at_initiator, initiator_keys) = finish_initiator(hs, &stage2_msg).unwrap();
    assert_eq!(their_details_at_initiator.cert, responder_cert_bytes);
    assert_eq!(their_details_at_initiator.responder_index, 99);
    assert_eq!(responder_keys.remote_static, initiator_pub);
    assert_eq!(initiator_keys.remote_static, responder_pub);
    assert_eq!(initiator_keys.send_key, responder_keys.recv_key);
    assert_eq!(initiator_keys.recv_key, responder_keys.send_key);

    let mut initiator_transport =
        Transport::new(Cipher::AesGcm, initiator_keys.send_key, initiator_keys.recv_key);
    let mut responder_transport =
        Transport::new(Cipher::AesGcm, responder_keys.send_key, responder_keys.recv_key);

    let aad = b"fake-16-byte-hdr";
    let mut ciphertext = vec![0u8; 128];
    let counter = initiator_transport.next_counter();
    let len = initiator_transport.encrypt(counter, aad, b"hello", &mut ciphertext).unwrap();
    let mut plaintext = vec![0u8; 128];
    let plen = responder_transport.decrypt(counter, aad, &ciphertext[..len], &mut plaintext).unwrap();
    assert_eq!(&plaintext[..plen], b"hello");
}

#[test]
fn full_ix_handshake_completes_with_chachapoly() {
    let (initiator_key, _) = keypair();
    let (responder_key, _) = keypair();
    let (hs, stage0_msg) = stage0(Cipher::ChaChaPoly, &initiator_key, b"a".to_vec(), 7).unwrap();
    let (_, stage2_msg, _) = respond(Cipher::ChaChaPoly, &responder_key, b"b".to_vec(), 55, &stage0_msg).unwrap();
    let (details, _) = finish_initiator(hs, &stage2_msg).unwrap();
    assert_eq!(details.cert, b"b".to_vec());
}

#[test]
fn the_first_message_holds_the_key_and_the_payload_in_the_clear() {
    let (key, public) = keypair();
    let (_, msg) = stage0(Cipher::AesGcm, &key, b"cert".to_vec(), 7).unwrap();
    assert_eq!(&msg[32..64], public.as_slice());
    let details = NebulaHandshake::decode(&msg[64..]).unwrap().details.unwrap();
    assert_eq!(details.cert, b"cert");
    assert_eq!(details.initiator_index, 7);
    assert_eq!(details.responder_index, 0);
    assert_eq!(details.cookie, 0);
    assert_eq!(details.cert_version, 2);
    assert!(details.time > 1_600_000_000_000_000_000);
}

#[test]
fn an_overlong_certificate_does_not_fit() {
    let (key, _) = keypair();
    let r = stage0(Cipher::AesGcm, &key, vec![0u8; 65_456], 7);
    assert!(matches!(r, Err(Error::Noise(_))));
    assert!(stage0(Cipher::AesGcm, &key, vec![0u8; 65_400], 7).is_ok());
}

#[test]
fn first_messages_out_of_order_are_refused() {
    let (key, _) = keypair();
    let answer = |m: &[u8]| respond(Cipher::AesGcm, &key, b"b".to_vec(), 1, m);
    assert!(matches!(answer(&[0u8; 63]), Err(Error::Noise(_))));
    assert!(matches!(answer(&[0u8; 65_536]), Err(Error::Noise(_))));
    match answer(&[1u8; 64]) {
        Err(Error::HandshakeFailed(s)) => assert_eq!(s, "stage 0 message had no details"),
        other => panic!("{:?}", other.err()),
    }
    let mut garbled = vec![1u8; 64];
    garbled.push(0x80);
    assert!(matches!(answer(&garbled), Err(Error::ProtobufDecode(_))));
}

#[test]
fn a_forged_answer_is_refused() {
    let (initiator_key, _) = keypair();
    let (responder_key, _) = keypair();
    let (hs, first) = stage0(Cipher::AesGcm, &initiator_key, b"a".to_vec(), 7).unwrap();
    let (_, mut second, _) =
        respond(Cipher::AesGcm, &responder_key, b"b".to_vec(), 55, &first).unwrap();
    let last = second.len() - 1;
    second[last] ^= 1;
    assert!(matches!(finish_initiator(hs, &second), Err(Error::Noise(_))));
}

#[test]
fn an_answer_is_as_long_as_what_it_holds() {
    let (initiator_key, _) = keypair();
    let (responder_key, _) = keypair();
    let (_, first) = stage0(Cipher::AesGcm, &initiator_key, b"a".to_vec(), 7).unwrap();
    let (_, second, _) =
        respond(Cipher::AesGcm, &responder_key, vec![3u8; 50_000], 55, &first).unwrap();
    // The keys and tags, the certificate with its key and length, both
    // indexes, the time and the version, and the details' key and length.
    assert_eq!(second.len(), 96 + 50_004 + 2 + 2 + 10 + 2 + 4);
    let r = respond(Cipher::AesGcm, &responder_key, vec![3u8; 65_440], 55, &first);
    assert!(matches!(r, Err(Error::Noise(_))));
}

#[test]
fn ciphers_must_agree() {
    let (initiator_key, _) = keypair();
    let (responder_key, _) = keypair();
    let (hs, first) = stage0(Cipher::AesGcm, &initiator_key, b"a".to_vec(), 7).unwrap();
    let (_, second, _) =
        respond(Cipher::ChaChaPoly, &responder_key, b"b".to_vec(), 55, &first).unwrap();
    assert!(finish_initiator(hs, &second).is_err());
}

#[test]
fn payloads_say_what_they_are_given() {
    let opening = NebulaHandshake::decode(&opening_payload(vec![1], 2, 3)).unwrap();
    assert_eq!(
        opening.details,
        Some(NebulaHandshakeDetails {
            cert: vec![1],
            initiator_index: 2,
            responder_index: 0,
            cookie: 0,
            time: 3,
            cert_version: 2,
        })
    );
    let answer = payload_details(&answer_payload(vec![1], 2, 9, 3), "none").unwrap();
    assert_eq!((answer.initiator_index, answer.responder_index, answer.time), (2, 9, 3));
    assert!(matches!(payload_details(&[], "none"), Err(Error::HandshakeFailed(s)) if s == "none"));
    assert!(matches!(payload_details(&[0x80], "none"), Err(Error::ProtobufDecode(_))));
}

#[test]
fn the_opener_sends_with_the_first_key() {
    let keys = ([1u8; 32], [2u8; 32]);
    assert_eq!(assign_keys(true, keys), ([1u8; 32], [2u8; 32]));
    assert_eq!(assign_keys(false, keys), ([2u8; 32], [1u8; 32]));
}
