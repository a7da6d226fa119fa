//! The peer session state machine: flag transitions, the duplicate-free
//! pending map, timeouts, and tolerance of unknown message ids.

use seedcore::message::Message;
use seedcore::piece::BlockInfo;
use seedcore::session::{FrameOutcome, PeerSessionState};

#[test]
fn test_initial_flags() {
    let s = PeerSessionState::new(0);
    assert!(s.am_choking);
    assert!(!s.am_interested);
    assert!(s.peer_choking);
    assert!(!s.peer_interested);
    assert!(!s.can_request());
    assert!(!s.may_serve());
}

#[test]
fn test_pending_map_never_holds_a_block_twice() {
    let mut s = PeerSessionState::new(0);
    let b = BlockInfo::new(3, 16384, 16384);
    s.add_pending_request(b, 10);
    s.add_pending_request(b, 20);
    s.add_pending_request(BlockInfo::new(3, 0, 16384), 30);
    assert_eq!(s.pending.len(), 2);

    assert!(s.remove_pending_request(&b));
    assert!(!s.remove_pending_request(&b));
    assert_eq!(s.pending.len(), 1);
}

#[test]
fn test_request_pipeline_limit() {
    let mut s = PeerSessionState::new(0);
    s.peer_choking = false;
    for i in 0..5 {
        assert!(s.can_request());
        s.add_pending_request(BlockInfo::new(0, i * 16384, 16384), 0);
    }
    assert!(!s.can_request());
}

#[test]
fn test_timeouts() {
    let mut s = PeerSessionState::new(0);
    s.add_pending_request(BlockInfo::new(0, 0, 16384), 1000);
    s.add_pending_request(BlockInfo::new(0, 16384, 16384), 40000);
    let stale = s.get_timed_out_requests(35000);
    assert_eq!(stale, vec![BlockInfo::new(0, 0, 16384)]);
    assert!(s.get_timed_out_requests(20000).is_empty());
}

#[test]
fn test_keep_alive_timer() {
    let s = PeerSessionState::new(1000);
    assert!(!s.needs_keep_alive(1000));
    assert!(!s.needs_keep_alive(121000));
    assert!(s.needs_keep_alive(121001));
}

#[test]
fn test_unknown_message_id_is_skipped() {
    // An id beyond the protocol's table is ignored, not fatal.
    let mut s = PeerSessionState::new(0);
    let outcome = s.on_frame(&[42, 1, 2, 3], 8, 5).unwrap();
    assert_eq!(outcome, FrameOutcome::Ignored);
    assert!(s.peer_choking);
    assert_eq!(s.last_activity, 5);
}

#[test]
fn test_flag_transitions() {
    let mut s = PeerSessionState::new(0);
    assert_eq!(s.on_frame(&[1], 8, 1).unwrap(), FrameOutcome::Unchoked);
    assert!(!s.peer_choking);
    assert_eq!(s.on_frame(&[0], 8, 2).unwrap(), FrameOutcome::Quiet);
    assert!(s.peer_choking);
    assert_eq!(s.on_frame(&[2], 8, 3).unwrap(), FrameOutcome::Quiet);
    assert!(s.peer_interested);
    assert_eq!(s.on_frame(&[3], 8, 4).unwrap(), FrameOutcome::Quiet);
    assert!(!s.peer_interested);
    assert_eq!(s.on_frame(&[], 8, 5).unwrap(), FrameOutcome::Quiet);
}

#[test]
fn test_bitfield_and_have() {
    let mut s = PeerSessionState::new(0);
    let frame = Message::Bitfield { bitfield: vec![0b10000000] }.to_bytes();
    assert_eq!(s.on_frame(&frame[4..], 8, 1).unwrap(), FrameOutcome::GotBitfield);
    let bf = s.peer_bitfield().as_ref().unwrap();
    assert!(bf.has_piece(0));
    assert!(!bf.has_piece(1));

    let have = Message::Have { piece_index: 3 }.to_bytes();
    assert!(matches!(
        s.on_frame(&have[4..], 8, 2).unwrap(),
        FrameOutcome::PeerHasPiece { piece_index: 3 }
    ));
    assert!(s.peer_bitfield().as_ref().unwrap().has_piece(3));
}

#[test]
fn test_piece_frames_and_pending() {
    let mut s = PeerSessionState::new(0);
    s.add_pending_request(BlockInfo::new(0, 0, 3), 0);
    let frame = Message::Piece { index: 0, begin: 0, data: vec![7, 8, 9] }.to_bytes();
    let outcome = s.on_frame(&frame[4..], 8, 1).unwrap();
    assert!(matches!(outcome, FrameOutcome::BlockArrived { index: 0, begin: 0 }));
    assert_eq!(s.downloaded_bytes, 3);

    // The same block again is no longer pending.
    let outcome = s.on_frame(&frame[4..], 8, 2).unwrap();
    assert_eq!(outcome, FrameOutcome::UnrequestedBlock);
    assert_eq!(s.downloaded_bytes, 3);
}

#[test]
fn test_malformed_known_message_is_error() {
    let mut s = PeerSessionState::new(0);
    assert!(s.on_frame(&[4, 0, 0], 8, 1).is_err());
}
