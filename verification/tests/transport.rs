use nebula::protocol::aead::CipherImpl;
use nebula::protocol::handshake::Cipher;
use nebula::protocol::transport::{ReplayWindow, Transport};
use nebula::protocol::Error;

#[test]
fn accepts_strictly_increasing_counters() {
    let mut w = ReplayWindow::new();
    assert!(w.check_and_update(1));
    assert!(w.check_and_update(2));
    assert!(w.check_and_update(3));
}

#[test]
fn rejects_exact_duplicate() {
    let mut w = ReplayWindow::new();
    assert!(w.check_and_update(5));
    assert!(!w.check_and_update(5));
}

#[test]
fn accepts_reordered_packet_within_window() {
    let mut w = ReplayWindow::new();
    assert!(w.check_and_update(10));
    assert!(w.check_and_update(8));
    assert!(!w.check_and_update(8));
}

#[test]
fn rejects_packet_older_than_the_window() {
    let mut w = ReplayWindow::new();
    assert!(w.check_and_update(2000));
    assert!(!w.check_and_update(1));
}

#[test]
fn end_to_end_encrypt_decrypt_via_transport() {
    let a_key = [0x11u8; 32];
    let b_key = [0x22u8; 32];
    let mut a_transport = Transport::new(Cipher::AesGcm, a_key, b_key);
    let mut b_transport = Transport::new(Cipher::AesGcm, b_key, a_key);

    let aad = b"fake-16-byte-hdr";
    let counter = a_transport.next_counter();
    let mut ciphertext = vec![0u8; 128];
    let len = a_transport
        .encrypt(counter, aad, b"hello world", &mut ciphertext)
        .unwrap();
    let mut plaintext = vec![0u8; 128];
    let plen = b_transport
        .decrypt(counter, aad, &ciphertext[..len], &mut plaintext)
        .unwrap();
    assert_eq!(&plaintext[..plen], b"hello world");

    assert!(
        b_transport
            .decrypt(counter, aad, &ciphertext[..len], &mut plaintext)
            .is_err()
    );
}

#[test]
fn mismatched_aad_is_rejected() {
    let a_key = [0x33u8; 32];
    let b_key = [0x44u8; 32];
    let a_transport = Transport::new(Cipher::ChaChaPoly, a_key, b_key);
    let mut b_transport = Transport::new(Cipher::ChaChaPoly, b_key, a_key);

    let mut ciphertext = vec![0u8; 128];
    let len = a_transport
        .encrypt(3, b"correct-header-x", b"payload", &mut ciphertext)
        .unwrap();
    let mut plaintext = vec![0u8; 128];
    assert!(
        b_transport
            .decrypt(3, b"wrong-header-byte", &ciphertext[..len], &mut plaintext)
            .is_err()
    );
}

#[test]
fn a_window_holds_the_last_1024_counters() {
    let mut w = ReplayWindow::new();
    assert!(w.check_and_update(2000));
    assert!(w.check_and_update(977));
    assert!(!w.check_and_update(976));
    assert!(w.check_and_update(2063));
    assert!(!w.check_and_update(2000));
    assert!(w.check_and_update(1999));
    assert!(!w.check_and_update(1999));
    assert!(w.check_and_update(1_000_000));
    assert!(!w.check_and_update(2063));
}

#[test]
fn packets_are_numbered_from_three() {
    let mut t = Transport::new(Cipher::AesGcm, [1u8; 32], [2u8; 32]);
    assert_eq!(t.next_counter(), 3);
    assert_eq!(t.next_counter(), 4);
    assert!(!t.is_spent());
}

#[test]
fn nonces_differ_in_byte_order() {
    let counter = 0x0102_0304_0506_0708;
    let aes = CipherImpl::new(Cipher::AesGcm, [0u8; 32]);
    assert_eq!(aes.nonce(counter), [0, 0, 0, 0, 1, 2, 3, 4, 5, 6, 7, 8]);
    let chacha = CipherImpl::new(Cipher::ChaChaPoly, [0u8; 32]);
    assert_eq!(chacha.nonce(counter), [0, 0, 0, 0, 8, 7, 6, 5, 4, 3, 2, 1]);
}

#[test]
fn aes_gcm_gives_the_known_answers() {
    let aes = CipherImpl::new(Cipher::AesGcm, [0u8; 32]);
    assert_eq!(
        hex::encode(aes.encrypt(0, b"", b"").unwrap()),
        "530f8afbc74536b9a963b4f1c4cb738b"
    );
    let sealed = aes.encrypt(0, b"", &[0u8; 16]).unwrap();
    assert_eq!(
        hex::encode(&sealed),
        "cea7403d4d606b6e074ec5d3baf39d18d0d1c8a799996bf0265b98b5d48ab919"
    );
    assert_eq!(aes.decrypt(0, b"", &sealed), Some(vec![0u8; 16]));
    assert_eq!(aes.decrypt(1, b"", &sealed), None);
}

#[test]
fn chachapoly_gives_the_known_answer() {
    let chacha = CipherImpl::new(Cipher::ChaChaPoly, [0u8; 32]);
    let sealed = chacha.encrypt(0, b"", &[0u8; 16]).unwrap();
    assert_eq!(
        hex::encode(&sealed),
        "9f07e7be5551387a98ba977c732d080dc34a88047320f52aa2c6683ef8084d2f"
    );
    assert_eq!(chacha.decrypt(0, b"", &sealed), Some(vec![0u8; 16]));
    assert_eq!(chacha.decrypt(0, b"x", &sealed), None);
}

#[test]
fn a_replay_is_told_apart_from_a_forgery() {
    for cipher in [Cipher::AesGcm, Cipher::ChaChaPoly] {
        let mut a = Transport::new(cipher, [1u8; 32], [2u8; 32]);
        let mut b = Transport::new(cipher, [2u8; 32], [1u8; 32]);
        let mut sealed = vec![0u8; 64];
        let counter = a.next_counter();
        let len = a.encrypt(counter, b"header", b"payload", &mut sealed).unwrap();
        assert_eq!(len, 7 + 16);
        let mut out = vec![0u8; 64];
        assert_eq!(b.decrypt(counter, b"header", &sealed[..len], &mut out).unwrap(), 7);
        assert_eq!(&out[..7], b"payload");
        assert!(matches!(
            b.decrypt(counter, b"header", &sealed[..len], &mut out),
            Err(Error::ReplayedPacket)
        ));
        assert!(matches!(
            b.decrypt(counter + 1, b"header", &sealed[..len], &mut out),
            Err(Error::DecryptFailed)
        ));
    }
}
