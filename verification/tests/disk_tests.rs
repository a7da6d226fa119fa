//! The disk mapper: file table construction, the piece-to-file range
//! projection, and the write queue.

use seedcore::disk::DiskManager;
use seedcore::torrent::{FileInfo as TorrentFileInfo, Metainfo, TorrentInfo};

fn create_test_metainfo_single() -> Metainfo {
    Metainfo {
        announce: "http://tracker.example.com".to_string(),
        announce_list: vec![],
        info: TorrentInfo {
            piece_length: 16384,
            pieces: vec![0u8; 40],
            piece_count: 2,
            files: vec![TorrentFileInfo { path: vec!["test_file.txt".to_string()], length: 20000 }],
            name: "test_file.txt".to_string(),
            total_size: 20000,
            is_single_file: true,
        },
        info_hash: [0u8; 20],
        creation_date: None,
        comment: None,
        created_by: None,
    }
}

fn create_test_metainfo_multi() -> Metainfo {
    Metainfo {
        announce: "http://tracker.example.com".to_string(),
        announce_list: vec![],
        info: TorrentInfo {
            piece_length: 16384,
            pieces: vec![0u8; 40],
            piece_count: 2,
            files: vec![
                TorrentFileInfo { path: vec!["file1.txt".to_string()], length: 10000 },
                TorrentFileInfo {
                    path: vec!["subdir".to_string(), "file2.txt".to_string()],
                    length: 10000,
                },
            ],
            name: "test_torrent".to_string(),
            total_size: 20000,
            is_single_file: false,
        },
        info_hash: [0u8; 20],
        creation_date: None,
        comment: None,
        created_by: None,
    }
}

#[test]
fn test_build_file_list_single() {
    let metainfo = create_test_metainfo_single();
    let dm = DiskManager::new(&metainfo, "/tmp/downloads".to_string());
    let files = dm.files();

    assert_eq!(files.len(), 1);
    assert_eq!(files[0].path, "/tmp/downloads/test_file.txt");
    assert_eq!(files[0].length, 20000);
    assert_eq!(files[0].offset, 0);
}

#[test]
fn test_build_file_list_multi() {
    let metainfo = create_test_metainfo_multi();
    let dm = DiskManager::new(&metainfo, "/tmp/downloads".to_string());
    let files = dm.files();

    assert_eq!(files.len(), 2);
    assert_eq!(files[0].path, "/tmp/downloads/test_torrent/file1.txt");
    assert_eq!(files[0].length, 10000);
    assert_eq!(files[0].offset, 0);

    assert_eq!(files[1].path, "/tmp/downloads/test_torrent/subdir/file2.txt");
    assert_eq!(files[1].length, 10000);
    assert_eq!(files[1].offset, 10000);
}

#[test]
fn test_get_files_for_range_single_file() {
    let metainfo = create_test_metainfo_single();
    let dm = DiskManager::new(&metainfo, "/tmp/downloads".to_string());

    let files = dm.get_files_for_range(0, 1000);
    assert_eq!(files.len(), 1);
    assert_eq!(files[0].1, 0);
    assert_eq!(files[0].2, 1000);
}

#[test]
fn test_get_files_for_range_multi_file() {
    let metainfo = create_test_metainfo_multi();
    let dm = DiskManager::new(&metainfo, "/tmp/downloads".to_string());

    // Read bytes 9000-11000 (spans both files)
    let files = dm.get_files_for_range(9000, 2000);
    assert_eq!(files.len(), 2);

    // First file: read from offset 9000, size 1000 bytes
    assert_eq!(files[0].1, 9000);
    assert_eq!(files[0].2, 1000);

    // Second file: read from offset 0, size 1000 bytes
    assert_eq!(files[1].1, 0);
    assert_eq!(files[1].2, 1000);
}

#[test]
fn test_disk_manager_properties() {
    let metainfo = create_test_metainfo_single();
    let dm = DiskManager::new(&metainfo, "/tmp/downloads".to_string());

    assert_eq!(dm.total_size(), 20000);
    assert_eq!(dm.piece_length(), 16384);
    assert_eq!(dm.num_pieces(), 2);
}

#[test]
fn test_queue_writes() {
    let metainfo = create_test_metainfo_single();
    let mut dm = DiskManager::new(&metainfo, "/tmp/downloads".to_string());
    dm.queue_write(0, vec![1u8; 16]).unwrap();
    dm.queue_write(1, vec![2u8; 16]).unwrap();
    let drained = dm.take_queued_writes();
    assert_eq!(drained.len(), 2);
    assert_eq!(drained[0].piece_index, 0);
    assert_eq!(drained[1].piece_index, 1);
    assert!(dm.take_queued_writes().is_empty());
}

#[test]
fn test_last_piece_range_is_short() {
    // The final piece of a 20,000-byte torrent covers only 3,616 bytes.
    let metainfo = create_test_metainfo_single();
    let dm = DiskManager::new(&metainfo, "/tmp/downloads".to_string());
    let files = dm.get_files_for_range(16384, 3616);
    assert_eq!(files.len(), 1);
    assert_eq!(files[0].1, 16384);
    assert_eq!(files[0].2, 3616);
}
