//! Piece selection behaviour: the four strategies, pending exclusion,
//! endgame detection, and availability accounting.

use seedcore::bitfield::Bitfield;
use seedcore::strategy::{PieceSelector, SelectionStrategy};

#[test]
fn test_rarest_first_selection() {
    let mut selector = PieceSelector::new(SelectionStrategy::RarestFirst);

    let mut peer1 = Bitfield::new(10);
    peer1.set_piece(0);
    peer1.set_piece(1);
    peer1.set_piece(2);

    let mut peer2 = Bitfield::new(10);
    peer2.set_piece(1);
    peer2.set_piece(3);

    let mut peer3 = Bitfield::new(10);
    peer3.set_piece(1);
    peer3.set_piece(2);

    selector.add_peer(&peer1);
    selector.add_peer(&peer2);
    selector.add_peer(&peer3);

    // piece 0: 1 peer, piece 1: 3 peers, piece 2: 2 peers, piece 3: 1 peer
    let our_bf = Bitfield::new(10);
    let peer_bf = peer1;
    let pending = vec![];

    let selected = selector.select_piece(&our_bf, &peer_bf, &pending);
    assert!(selected == Some(0) || selected == Some(2));
}

#[test]
fn test_sequential_selection() {
    let selector = PieceSelector::new(SelectionStrategy::Sequential);

    let our_bf = Bitfield::new(10);
    let mut peer_bf = Bitfield::new(10);
    peer_bf.set_piece(3);
    peer_bf.set_piece(5);
    peer_bf.set_piece(1);

    let pending = vec![];
    let selected = selector.select_piece(&our_bf, &peer_bf, &pending);

    assert_eq!(selected, Some(1));
}

#[test]
fn test_random_selection() {
    let selector = PieceSelector::new(SelectionStrategy::Random);

    let our_bf = Bitfield::new(10);
    let mut peer_bf = Bitfield::new(10);
    peer_bf.set_piece(2);
    peer_bf.set_piece(5);
    peer_bf.set_piece(8);

    let pending = vec![];
    let selected = selector.select_piece(&our_bf, &peer_bf, &pending);

    assert!(selected == Some(2) || selected == Some(5) || selected == Some(8));
}

#[test]
fn test_pending_pieces_exclusion() {
    let selector = PieceSelector::new(SelectionStrategy::Sequential);

    let our_bf = Bitfield::new(10);
    let mut peer_bf = Bitfield::new(10);
    peer_bf.set_piece(1);
    peer_bf.set_piece(2);
    peer_bf.set_piece(3);

    let pending = vec![1];
    let selected = selector.select_piece(&our_bf, &peer_bf, &pending);

    assert_eq!(selected, Some(2));
}

#[test]
fn test_no_available_pieces() {
    let selector = PieceSelector::new(SelectionStrategy::RarestFirst);

    let our_bf = Bitfield::complete(10);
    let peer_bf = Bitfield::complete(10);
    let pending = vec![];

    let selected = selector.select_piece(&our_bf, &peer_bf, &pending);
    assert_eq!(selected, None);
}

#[test]
fn test_endgame_mode_detection() {
    let selector = PieceSelector::new(SelectionStrategy::RarestFirst);

    let mut bf = Bitfield::new(100);
    for i in 0..97 {
        bf.set_piece(i);
    }

    // 3 pieces left (< 5%)
    assert!(selector.should_enter_endgame(&bf));

    let bf2 = Bitfield::new(100);
    assert!(!selector.should_enter_endgame(&bf2));
}

#[test]
fn test_availability_tracking() {
    let mut selector = PieceSelector::new(SelectionStrategy::RarestFirst);

    let mut peer1 = Bitfield::new(10);
    peer1.set_piece(0);
    peer1.set_piece(1);

    let mut peer2 = Bitfield::new(10);
    peer2.set_piece(1);
    peer2.set_piece(2);

    selector.add_peer(&peer1);
    selector.add_peer(&peer2);

    assert_eq!(selector.get_availability(0), 1);
    assert_eq!(selector.get_availability(1), 2);
    assert_eq!(selector.get_availability(2), 1);
    assert_eq!(selector.get_availability(9), 0);

    selector.remove_peer(&peer1);
    assert_eq!(selector.get_availability(0), 0);
    assert_eq!(selector.get_availability(1), 1);
}

#[test]
fn test_mark_piece_available() {
    let mut selector = PieceSelector::new(SelectionStrategy::RarestFirst);

    assert_eq!(selector.get_availability(5), 0);

    selector.mark_piece_available(5);
    assert_eq!(selector.get_availability(5), 1);

    selector.mark_piece_available(5);
    assert_eq!(selector.get_availability(5), 2);
}

#[test]
fn test_endgame_requests_pending_piece() {
    // In endgame a piece already in flight may be handed out again.
    let selector = PieceSelector::new(SelectionStrategy::Endgame);
    let mut our_bf = Bitfield::new(4);
    our_bf.set_piece(0);
    our_bf.set_piece(1);
    our_bf.set_piece(2);
    let peer_bf = our_bf.clone();
    let pending = vec![3];
    let selected = selector.select_piece(&our_bf, &peer_bf, &pending);
    assert_eq!(selected, Some(3));
}
