//! Metainfo parsing: field extraction, the digest table, and the info hash
//! computed over the exact raw bytes of the info dictionary.

use seedcore::torrent::Metainfo;
use sha1::{Digest, Sha1};

#[test]
fn test_parse_single_file_torrent() {
    let mut data = Vec::new();
    data.extend_from_slice(b"d");
    data.extend_from_slice(b"8:announce14:http://tracker");
    data.extend_from_slice(b"4:info");
    data.extend_from_slice(b"d");
    data.extend_from_slice(b"6:lengthi1234e");
    data.extend_from_slice(b"4:name9:test.file");
    data.extend_from_slice(b"12:piece_lengthi16384e");
    data.extend_from_slice(b"6:pieces20:12345678901234567890");
    data.extend_from_slice(b"e");
    data.extend_from_slice(b"e");

    let metainfo = Metainfo::from_bytes(&data).unwrap();

    assert_eq!(metainfo.announce, "http://tracker");
    assert_eq!(metainfo.info.name, "test.file");
    assert_eq!(metainfo.info.total_size, 1234);
    assert_eq!(metainfo.info.piece_length, 16384);
    assert_eq!(metainfo.info.piece_count, 1);
    assert!(metainfo.info.is_single_file);
    assert_eq!(metainfo.info.files.len(), 1);
}

#[test]
fn test_piece_hash_extraction() {
    let mut data = Vec::new();
    data.extend_from_slice(b"d");
    data.extend_from_slice(b"8:announce14:http://tracker");
    data.extend_from_slice(b"4:info");
    data.extend_from_slice(b"d");
    data.extend_from_slice(b"6:lengthi1234e");
    data.extend_from_slice(b"4:name4:test");
    data.extend_from_slice(b"12:piece_lengthi16384e");
    data.extend_from_slice(b"6:pieces40:1234567890123456789012345678901234567890");
    data.extend_from_slice(b"e");
    data.extend_from_slice(b"e");

    let metainfo = Metainfo::from_bytes(&data).unwrap();

    assert_eq!(metainfo.info.piece_count, 2);

    let piece0 = metainfo.info.piece_hash(0).unwrap();
    assert_eq!(piece0, b"12345678901234567890");

    let piece1 = metainfo.info.piece_hash(1).unwrap();
    assert_eq!(piece1, b"12345678901234567890");

    assert!(metainfo.info.piece_hash(2).is_none());
}

#[test]
fn test_info_hash_over_raw_bytes() {
    // The reference shape: a single file of 20,000 bytes in two pieces of
    // 16,384.  The info hash must equal SHA-1 over the exact info slice.
    let info: &[u8] =
        b"d6:lengthi20000e4:name8:ref.file12:piece lengthi16384e6:pieces40:aaaaaaaaaaaaaaaaaaaabbbbbbbbbbbbbbbbbbbbe";
    let mut data = Vec::new();
    data.extend_from_slice(b"d8:announce14:http://tracker4:info");
    data.extend_from_slice(info);
    data.extend_from_slice(b"e");

    let metainfo = Metainfo::from_bytes(&data).unwrap();
    assert_eq!(metainfo.info.total_size, 20000);
    assert_eq!(metainfo.info.piece_count, 2);

    let mut hasher = Sha1::new();
    hasher.update(info);
    let expected: Vec<u8> = hasher.finalize().to_vec();
    assert_eq!(metainfo.info_hash.to_vec(), expected);
    assert_eq!(metainfo.info_hash_hex(), hex::encode(&expected));
}

#[test]
fn test_multi_file_torrent() {
    let data = b"d8:announce14:http://tracker4:infod5:filesld6:lengthi10000e4:pathl9:file1.txteed6:lengthi10000e4:pathl6:subdir9:file2.txteee4:name12:test_torrent12:piece lengthi16384e6:pieces40:aaaaaaaaaaaaaaaaaaaabbbbbbbbbbbbbbbbbbbbee";
    let metainfo = Metainfo::from_bytes(data).unwrap();
    assert!(!metainfo.info.is_single_file);
    assert_eq!(metainfo.info.files.len(), 2);
    assert_eq!(metainfo.info.total_size, 20000);
    assert_eq!(metainfo.info.files[1].path, vec!["subdir", "file2.txt"]);
}

#[test]
fn test_rejects_escaping_paths() {
    // A `..` path component must be refused.
    let data = b"d8:announce14:http://tracker4:infod5:filesld6:lengthi5e4:pathl2:..4:evileee4:name4:test12:piece lengthi16384e6:pieces20:aaaaaaaaaaaaaaaaaaaaee";
    assert!(Metainfo::from_bytes(data).is_err());
}

#[test]
fn test_missing_fields_rejected() {
    assert!(Metainfo::from_bytes(b"d4:infodee").is_err());
    assert!(Metainfo::from_bytes(b"d8:announce3:urle").is_err());
    assert!(Metainfo::from_bytes(b"i42e").is_err());
    // pieces not a multiple of 20
    let data = b"d8:announce3:url4:infod6:lengthi1e4:name1:n12:piece lengthi1e6:pieces3:abce";
    assert!(Metainfo::from_bytes(data).is_err());
}

#[test]
fn test_from_magnet_stub() {
    let m = Metainfo::from_magnet(
        [5u8; 20],
        Some("Display".to_string()),
        vec!["http://a/announce".to_string(), "http://b/announce".to_string()],
    );
    assert_eq!(m.announce, "http://a/announce");
    assert_eq!(m.announce_list.len(), 1);
    assert_eq!(m.announce_list[0], vec!["http://b/announce"]);
    assert_eq!(m.info.name, "Display");
    assert_eq!(m.info.piece_count, 0);
    assert_eq!(m.info.total_size, 0);
    assert_eq!(m.info_hash, [5u8; 20]);
}

#[test]
fn test_get_file_list() {
    let data = b"d8:announce14:http://tracker4:infod5:filesld6:lengthi10000e4:pathl9:file1.txteed6:lengthi10000e4:pathl6:subdir9:file2.txteee4:name12:test_torrent12:piece lengthi16384e6:pieces40:aaaaaaaaaaaaaaaaaaaabbbbbbbbbbbbbbbbbbbbee";
    let metainfo = Metainfo::from_bytes(data).unwrap();
    let rows = seedcore::torrent::get_file_list(&metainfo);
    assert_eq!(rows.len(), 2);
    assert_eq!(rows[0].path, "file1.txt");
    assert_eq!(rows[1].path, "subdir/file2.txt");
    assert_eq!(rows[1].size, 10000);
    assert_eq!(rows[0].downloaded, 0);
}
