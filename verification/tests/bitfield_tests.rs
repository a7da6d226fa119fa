//! Bitfield behaviour: bit set/clear/test, counting, set operations, and
//! the most-significant-bit-first wire layout.

use seedcore::bitfield::Bitfield;

#[test]
fn test_new_bitfield() {
    let bf = Bitfield::new(10);
    assert_eq!(bf.num_pieces(), 10);
    assert_eq!(bf.count_pieces(), 0);
    assert!(bf.is_empty());
    assert!(!bf.is_complete());
}

#[test]
fn test_set_and_has_piece() {
    let mut bf = Bitfield::new(16);
    assert!(!bf.has_piece(0));
    assert!(!bf.has_piece(5));
    assert!(!bf.has_piece(15));

    bf.set_piece(0);
    bf.set_piece(5);
    bf.set_piece(15);

    assert!(bf.has_piece(0));
    assert!(bf.has_piece(5));
    assert!(bf.has_piece(15));
    assert!(!bf.has_piece(1));
    assert_eq!(bf.count_pieces(), 3);
}

#[test]
fn test_clear_piece() {
    let mut bf = Bitfield::new(10);
    bf.set_piece(3);
    assert!(bf.has_piece(3));

    bf.clear_piece(3);
    assert!(!bf.has_piece(3));
}

#[test]
fn test_complete_bitfield() {
    let bf = Bitfield::complete(10);
    assert_eq!(bf.count_pieces(), 10);
    assert!(bf.is_complete());
    assert!(!bf.is_empty());

    for i in 0..10 {
        assert!(bf.has_piece(i));
    }
}

#[test]
fn test_from_bytes() {
    // First byte: 11010000 = pieces 0, 1, 3 available
    // Second byte: 10000000 = piece 8 available
    let bytes = vec![0b11010000, 0b10000000];
    let bf = Bitfield::from_bytes(bytes, 12);

    assert!(bf.has_piece(0));
    assert!(bf.has_piece(1));
    assert!(!bf.has_piece(2));
    assert!(bf.has_piece(3));
    assert!(!bf.has_piece(4));
    assert!(bf.has_piece(8));
    assert!(!bf.has_piece(9));
    assert_eq!(bf.count_pieces(), 4);
}

#[test]
fn test_available_and_missing_pieces() {
    let mut bf = Bitfield::new(8);
    bf.set_piece(0);
    bf.set_piece(3);
    bf.set_piece(7);

    assert_eq!(bf.available_pieces(), vec![0, 3, 7]);
    assert_eq!(bf.missing_pieces(), vec![1, 2, 4, 5, 6]);
}

#[test]
fn test_pieces_to_request() {
    let mut our_bf = Bitfield::new(10);
    our_bf.set_piece(0);
    our_bf.set_piece(1);

    let mut peer_bf = Bitfield::new(10);
    peer_bf.set_piece(1);
    peer_bf.set_piece(2);
    peer_bf.set_piece(5);

    let to_request = our_bf.pieces_to_request(&peer_bf);
    assert_eq!(to_request, vec![2, 5]);
}

#[test]
fn test_union() {
    let mut bf1 = Bitfield::new(10);
    bf1.set_piece(0);
    bf1.set_piece(2);

    let mut bf2 = Bitfield::new(10);
    bf2.set_piece(1);
    bf2.set_piece(2);

    let union = bf1.union(&bf2);
    assert!(union.has_piece(0));
    assert!(union.has_piece(1));
    assert!(union.has_piece(2));
    assert!(!union.has_piece(3));
    assert_eq!(union.count_pieces(), 3);
}

#[test]
fn test_intersection() {
    let mut bf1 = Bitfield::new(10);
    bf1.set_piece(0);
    bf1.set_piece(1);
    bf1.set_piece(2);

    let mut bf2 = Bitfield::new(10);
    bf2.set_piece(1);
    bf2.set_piece(2);
    bf2.set_piece(3);

    let intersection = bf1.intersection(&bf2);
    assert!(!intersection.has_piece(0));
    assert!(intersection.has_piece(1));
    assert!(intersection.has_piece(2));
    assert!(!intersection.has_piece(3));
    assert_eq!(intersection.count_pieces(), 2);
}

#[test]
fn test_msb_first_wire_layout() {
    // Setting piece 0 must set the most significant bit of the first byte.
    let mut bf = Bitfield::new(9);
    bf.set_piece(0);
    assert_eq!(bf.as_bytes()[0], 0b10000000);
    bf.set_piece(8);
    assert_eq!(bf.as_bytes()[1], 0b10000000);
}
