//! Formatting helpers and peer-id generation.

use seedcore::util::{calculate_eta, format_bytes, format_duration, format_speed, generate_peer_id};

#[test]
fn test_generate_peer_id() {
    let peer_id = generate_peer_id();

    assert_eq!(peer_id.len(), 20);
    assert_eq!(&peer_id[0..8], b"-SC0100-");

    for &byte in &peer_id[8..20] {
        assert!((33..=126).contains(&byte), "Byte {} is not printable ASCII", byte);
    }

    let peer_id2 = generate_peer_id();
    assert_ne!(peer_id, peer_id2);
}

#[test]
fn test_format_bytes() {
    assert_eq!(format_bytes(0), "0 B");
    assert_eq!(format_bytes(100), "100 B");
    assert_eq!(format_bytes(1024), "1.00 KiB");
    assert_eq!(format_bytes(1536), "1.50 KiB");
    assert_eq!(format_bytes(1024 * 1024), "1.00 MiB");
    assert_eq!(format_bytes(1024 * 1024 * 1024), "1.00 GiB");
    assert_eq!(format_bytes(1536 * 1024 * 1024), "1.50 GiB");
}

#[test]
fn test_format_speed() {
    assert_eq!(format_speed(1024), "1.00 KiB/s");
    assert_eq!(format_speed(1024 * 1024), "1.00 MiB/s");
}

#[test]
fn test_format_duration() {
    assert_eq!(format_duration(0), "0s");
    assert_eq!(format_duration(45), "45s");
    assert_eq!(format_duration(90), "1m 30s");
    assert_eq!(format_duration(3661), "1h 1m 1s");
}

#[test]
fn test_calculate_eta() {
    assert_eq!(calculate_eta(1024 * 1024, 1024), Some(1024));
    assert_eq!(calculate_eta(1000, 0), None);
}
