//! Wire message framing: encodings, parse round trips, and the frame
//! length calculation.

use seedcore::message::{Message, MessageId};

#[test]
fn test_keep_alive() {
    let msg = Message::KeepAlive;
    let bytes = msg.to_bytes();

    assert_eq!(bytes, vec![0, 0, 0, 0]);
}

#[test]
fn test_choke_unchoke() {
    let choke = Message::Choke;
    let choke_bytes = choke.to_bytes();

    assert_eq!(choke_bytes, vec![0, 0, 0, 1, 0]);

    let parsed = Message::from_bytes(&choke_bytes[4..]).unwrap();
    assert_eq!(parsed, choke);

    let unchoke = Message::Unchoke;
    let unchoke_bytes = unchoke.to_bytes();

    assert_eq!(unchoke_bytes, vec![0, 0, 0, 1, 1]);
}

#[test]
fn test_have() {
    let msg = Message::Have { piece_index: 42 };
    let bytes = msg.to_bytes();

    assert_eq!(bytes.len(), 9);
    assert_eq!(&bytes[0..4], &[0, 0, 0, 5]);
    assert_eq!(bytes[4], MessageId::Have.code());

    let parsed = Message::from_bytes(&bytes[4..]).unwrap();
    assert_eq!(parsed, msg);
}

#[test]
fn test_request() {
    let msg = Message::Request { index: 10, begin: 16384, length: 16384 };

    let bytes = msg.to_bytes();
    assert_eq!(bytes.len(), 17);

    let parsed = Message::from_bytes(&bytes[4..]).unwrap();
    assert_eq!(parsed, msg);
}

#[test]
fn test_piece() {
    let data = vec![1, 2, 3, 4, 5];
    let msg = Message::Piece { index: 0, begin: 0, data: data.clone() };

    let bytes = msg.to_bytes();
    assert_eq!(bytes.len(), 4 + 1 + 8 + 5);

    let parsed = Message::from_bytes(&bytes[4..]).unwrap();
    assert_eq!(parsed, msg);
}

#[test]
fn test_bitfield() {
    let bitfield = vec![0xFF, 0x00, 0xAB];
    let msg = Message::Bitfield { bitfield: bitfield.clone() };

    let bytes = msg.to_bytes();
    let parsed = Message::from_bytes(&bytes[4..]).unwrap();

    assert_eq!(parsed, msg);
}

#[test]
fn test_message_id_codes() {
    assert!(matches!(MessageId::from_u8(0), Ok(MessageId::Choke)));
    assert!(matches!(MessageId::from_u8(8), Ok(MessageId::Cancel)));
    assert!(MessageId::from_u8(9).is_err());
    assert_eq!(MessageId::Piece.code(), 7);
}

#[test]
fn test_malformed_messages() {
    // A HAVE frame must carry exactly four payload bytes.
    assert!(Message::from_bytes(&[4, 0, 0, 1]).is_err());
    // A REQUEST frame must carry exactly twelve.
    assert!(Message::from_bytes(&[6, 0, 0]).is_err());
    assert_eq!(Message::from_bytes(&[]).unwrap(), Message::KeepAlive);
}

#[test]
fn test_length() {
    assert_eq!(Message::KeepAlive.length(), 0);
    assert_eq!(Message::Choke.length(), 1);
    assert_eq!(Message::Have { piece_index: 1 }.length(), 5);
    assert_eq!(Message::Bitfield { bitfield: vec![0, 0] }.length(), 3);
    assert_eq!(Message::Request { index: 0, begin: 0, length: 1 }.length(), 13);
    assert_eq!(Message::Piece { index: 0, begin: 0, data: vec![9; 4] }.length(), 13);
}
