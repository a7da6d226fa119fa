//! The piece manager: block lists, selection, buffer assembly, and digest
//! verification with its commit/reset outcomes.

use seedcore::bitfield::Bitfield;
use seedcore::piece::{BlockInfo, PieceManager};
use seedcore::strategy::SelectionStrategy;
use sha1::{Digest, Sha1};

fn create_test_hashes(num_pieces: usize) -> Vec<Vec<u8>> {
    (0..num_pieces)
        .map(|i| {
            let mut hasher = Sha1::new();
            hasher.update(format!("piece_{}", i).as_bytes());
            hasher.finalize().to_vec()
        })
        .collect()
}

#[test]
fn test_piece_manager_creation() {
    let hashes = create_test_hashes(10);
    let pm = PieceManager::new(10, 16384, 8192, hashes, SelectionStrategy::RarestFirst);

    let stats = pm.stats();
    assert_eq!(stats.total_pieces, 10);
    assert_eq!(stats.completed_pieces, 0);
    assert!(!pm.is_complete());
    assert_eq!(pm.downloaded_bytes(), 0);
}

#[test]
fn test_piece_length() {
    let hashes = create_test_hashes(10);
    let pm = PieceManager::new(10, 16384, 8192, hashes, SelectionStrategy::RarestFirst);

    assert_eq!(pm.piece_len(0), 16384);
    assert_eq!(pm.piece_len(5), 16384);
    assert_eq!(pm.piece_len(9), 8192);
}

#[test]
fn test_get_blocks_for_piece() {
    let hashes = create_test_hashes(3);
    let pm = PieceManager::new(3, 32768, 16384, hashes, SelectionStrategy::RarestFirst);

    // Piece 0: 32768 bytes = 2 blocks of 16384 bytes each
    let blocks = pm.get_blocks_for_piece(0);
    assert_eq!(blocks.len(), 2);
    assert_eq!(blocks[0].offset, 0);
    assert_eq!(blocks[0].length, 16384);
    assert_eq!(blocks[1].offset, 16384);
    assert_eq!(blocks[1].length, 16384);

    // Last piece: 16384 bytes = 1 block
    let blocks = pm.get_blocks_for_piece(2);
    assert_eq!(blocks.len(), 1);
    assert_eq!(blocks[0].length, 16384);
}

#[test]
fn test_select_next_piece() {
    let hashes = create_test_hashes(5);
    let mut pm = PieceManager::new(5, 16384, 16384, hashes, SelectionStrategy::Sequential);

    let mut peer_bf = Bitfield::new(5);
    peer_bf.set_piece(0);
    peer_bf.set_piece(2);
    peer_bf.set_piece(4);

    pm.add_peer("peer1".to_string(), &peer_bf);

    let result = pm.select_next_piece("peer1", &peer_bf);
    assert!(result.is_some());

    let (piece_idx, blocks) = result.unwrap();
    assert_eq!(piece_idx, 0);
    assert!(!blocks.is_empty());
}

#[test]
fn test_write_and_verify_piece() {
    let piece_data = b"Hello, this is a test piece!";
    let mut hasher = Sha1::new();
    hasher.update(piece_data);
    let correct_hash = hasher.finalize().to_vec();

    let hashes = vec![correct_hash];
    let mut pm = PieceManager::new(
        1,
        piece_data.len(),
        piece_data.len(),
        hashes,
        SelectionStrategy::RarestFirst,
    );

    let mut peer_bf = Bitfield::new(1);
    peer_bf.set_piece(0);
    pm.add_peer("peer1".to_string(), &peer_bf);

    let (piece_idx, blocks) = pm.select_next_piece("peer1", &peer_bf).unwrap();
    assert_eq!(piece_idx, 0);

    for block in blocks {
        let data = &piece_data[block.offset..block.offset + block.length];
        let is_complete = pm.write_block(block, data).unwrap();
        if block.offset + block.length == piece_data.len() {
            assert!(is_complete);
        }
    }

    let verified_data = pm.verify_piece(0).unwrap();
    assert_eq!(verified_data, piece_data);
    assert!(pm.has_piece(0));
    assert!(pm.is_complete());
    assert_eq!(pm.downloaded_bytes(), piece_data.len() as u64);
}

#[test]
fn test_verify_piece_hash_mismatch() {
    let correct_data = b"correct data";
    let mut hasher = Sha1::new();
    hasher.update(correct_data);
    let correct_hash = hasher.finalize().to_vec();

    let hashes = vec![correct_hash];
    let mut pm = PieceManager::new(1, 32, 32, hashes, SelectionStrategy::RarestFirst);

    let mut peer_bf = Bitfield::new(1);
    peer_bf.set_piece(0);
    pm.add_peer("peer1".to_string(), &peer_bf);

    pm.select_next_piece("peer1", &peer_bf);

    // The piece is 32 bytes; fill it with wrong content.
    let wrong_data = [9u8; 32];
    let block = BlockInfo::new(0, 0, wrong_data.len());
    pm.write_block(block, &wrong_data).unwrap();

    let result = pm.verify_piece(0);
    assert!(result.is_err());
    assert!(!pm.has_piece(0));
    assert_eq!(pm.downloaded_bytes(), 0);
}

#[test]
fn test_piece_stats() {
    let hashes = create_test_hashes(10);
    let pm = PieceManager::new(10, 16384, 16384, hashes, SelectionStrategy::RarestFirst);

    let stats = pm.stats();
    assert_eq!(stats.total_pieces, 10);
    assert_eq!(stats.completed_pieces, 0);
    assert_eq!(stats.in_progress_pieces, 0);
    assert_eq!(stats.verified_pieces, 0);
}

#[test]
fn test_short_last_piece_blocks() {
    // 20,000 bytes in two pieces: the last piece and its single block are
    // both shorter than the defaults.
    let hashes = create_test_hashes(2);
    let pm = PieceManager::new(2, 16384, 3616, hashes, SelectionStrategy::Sequential);
    assert_eq!(pm.piece_len(1), 3616);
    let blocks = pm.get_blocks_for_piece(1);
    assert_eq!(blocks.len(), 1);
    assert_eq!(blocks[0].offset, 0);
    assert_eq!(blocks[0].length, 3616);
}

#[test]
fn test_verify_short_last_piece() {
    let piece = vec![0x42u8; 3616];
    let mut hasher = Sha1::new();
    hasher.update(&piece);
    let h1 = hasher.finalize().to_vec();
    let hashes = vec![vec![0u8; 20], h1];
    let mut pm = PieceManager::new(2, 16384, 3616, hashes, SelectionStrategy::Sequential);

    let mut peer_bf = Bitfield::new(2);
    peer_bf.set_piece(1);
    pm.add_peer("seed".to_string(), &peer_bf);
    let (idx, blocks) = pm.select_next_piece("seed", &peer_bf).unwrap();
    assert_eq!(idx, 1);
    assert_eq!(blocks.len(), 1);
    let done = pm.write_block(blocks[0], &piece).unwrap();
    assert!(done);
    let data = pm.verify_piece(1).unwrap();
    assert_eq!(data, piece);
    assert_eq!(pm.downloaded_bytes(), 3616);
}

#[test]
fn test_get_missing_blocks() {
    let hashes = create_test_hashes(1);
    let mut pm = PieceManager::new(1, 32768, 32768, hashes, SelectionStrategy::Sequential);
    let mut peer_bf = Bitfield::new(1);
    peer_bf.set_piece(0);
    pm.add_peer("p".to_string(), &peer_bf);
    let (idx, blocks) = pm.select_next_piece("p", &peer_bf).unwrap();
    assert_eq!(blocks.len(), 2);
    let data = vec![1u8; 16384];
    pm.write_block(blocks[0], &data).unwrap();
    let missing = pm.get_missing_blocks(idx).unwrap();
    assert_eq!(missing.len(), 1);
    assert_eq!(missing[0].offset, 16384);

    pm.mark_block_failed(blocks[0]);
    let missing = pm.get_missing_blocks(idx).unwrap();
    assert_eq!(missing.len(), 2);

    pm.cancel_piece(idx);
    assert!(pm.get_missing_blocks(idx).is_none());
}
