//! The 68-byte handshake: serialisation, parsing, extension bits, and the
//! info-hash gate that protects sessions.

use seedcore::handshake::{accept_handshake, Handshake};

#[test]
fn test_handshake_serialize_deserialize() {
    let info_hash = [1u8; 20];
    let peer_id = [2u8; 20];

    let handshake = Handshake::new(info_hash, peer_id);
    let bytes = handshake.to_bytes();

    assert_eq!(bytes.len(), 68);

    let parsed = Handshake::from_bytes(&bytes).unwrap();

    assert_eq!(parsed, handshake);
    assert_eq!(parsed.info_hash, info_hash);
    assert_eq!(parsed.peer_id, peer_id);
}

#[test]
fn test_handshake_format() {
    let info_hash = [0xABu8; 20];
    let peer_id = [0xCDu8; 20];

    let handshake = Handshake::new(info_hash, peer_id);
    let bytes = handshake.to_bytes();

    assert_eq!(bytes[0], 19);
    assert_eq!(&bytes[1..20], b"BitTorrent protocol");
    assert_eq!(&bytes[20..28], &[0u8; 8]);
    assert_eq!(&bytes[28..48], &[0xABu8; 20]);
    assert_eq!(&bytes[48..68], &[0xCDu8; 20]);
}

#[test]
fn test_extension_bits() {
    let mut handshake = Handshake::new([0u8; 20], [0u8; 20]);

    assert!(!handshake.supports_extension(0));
    assert!(!handshake.supports_extension(20));

    handshake.enable_extension(20);
    assert!(handshake.supports_extension(20));

    let bytes = handshake.to_bytes();
    let parsed = Handshake::from_bytes(&bytes).unwrap();
    assert!(parsed.supports_extension(20));
}

#[test]
fn test_mismatched_info_hash_rejected() {
    // A handshake carrying the wrong info hash opens no session.
    let ours = [7u8; 20];
    let theirs = [8u8; 20];
    let wire = Handshake::new(theirs, [1u8; 20]).to_bytes();
    assert!(accept_handshake(&wire, &ours).is_err());

    let matching = Handshake::new(ours, [1u8; 20]).to_bytes();
    let accepted = accept_handshake(&matching, &ours).unwrap();
    assert_eq!(accepted.info_hash, ours);
}

#[test]
fn test_truncated_handshake_rejected() {
    assert!(Handshake::from_bytes(&[19u8; 20]).is_err());
    let mut wire = Handshake::new([0u8; 20], [0u8; 20]).to_bytes();
    wire[0] = 18;
    assert!(Handshake::from_bytes(&wire).is_err());
}
