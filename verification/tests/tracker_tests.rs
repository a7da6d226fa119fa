//! The tracker exchange: percent-encoding, the announce query string, and
//! both wire forms of the peer list in a bencoded reply.

use seedcore::tracker::{
    build_announce_query, parse_announce_response, parse_compact_peers, url_encode_bytes,
    AnnounceEvent, AnnounceRequest,
};

#[test]
fn test_url_encode_bytes() {
    let bytes = b"hello";
    let encoded = url_encode_bytes(bytes);
    assert_eq!(encoded, "%68%65%6c%6c%6f");
}

#[test]
fn test_parse_compact_peers() {
    // 2 peers: 192.168.1.1:6881 and 10.0.0.1:6882
    let data = vec![
        192, 168, 1, 1, 0x1A, 0xE1, // 192.168.1.1:6881
        10, 0, 0, 1, 0x1A, 0xE2, // 10.0.0.1:6882
    ];

    let peers = parse_compact_peers(&data).unwrap();

    assert_eq!(peers.len(), 2);
    assert_eq!(peers[0].addr.to_display_string(), "192.168.1.1:6881");
    assert_eq!(peers[1].addr.to_display_string(), "10.0.0.1:6882");
    assert!(parse_compact_peers(&data[0..5]).is_err());
}

#[test]
fn test_build_announce_url() {
    let mut request = AnnounceRequest::default();
    request.info_hash = [1u8; 20];
    request.peer_id = [2u8; 20];
    request.port = 6881;

    let query = build_announce_query(&request);

    assert!(query.starts_with("info_hash="));
    assert!(query.contains("peer_id="));
    assert!(query.contains("port=6881"));
    assert!(query.contains("compact=1"));
    assert!(query.contains("uploaded=0"));
    assert!(query.contains("downloaded=0"));
    assert!(query.contains("left=0"));
    assert!(query.contains("numwant=50"));
    assert!(!query.contains("event="));

    request.event = AnnounceEvent::Started;
    let query = build_announce_query(&request);
    assert!(query.ends_with("&event=started"));
}

#[test]
fn test_parse_announce_response_compact() {
    // A reply carrying two compact peers.
    let mut data = Vec::new();
    data.extend_from_slice(b"d8:intervali1800e5:peers12:");
    data.extend_from_slice(&[192, 168, 1, 1, 0x1A, 0xE1, 10, 0, 0, 1, 0x1A, 0xE2]);
    data.extend_from_slice(b"e");
    let resp = parse_announce_response(&data).unwrap();
    assert_eq!(resp.interval, 1800);
    assert_eq!(resp.peers.len(), 2);
    assert_eq!(resp.peers[0].addr.to_display_string(), "192.168.1.1:6881");
    assert_eq!(resp.peers[1].addr.to_display_string(), "10.0.0.1:6882");
}

#[test]
fn test_parse_announce_response_dict_peers() {
    let data = b"d8:completei5e10:incompletei3e8:intervali900e5:peersld2:ip11:192.168.1.14:porti6881eeee";
    let resp = parse_announce_response(data).unwrap();
    assert_eq!(resp.interval, 900);
    assert_eq!(resp.complete, 5);
    assert_eq!(resp.incomplete, 3);
    assert_eq!(resp.peers.len(), 1);
    assert_eq!(resp.peers[0].addr.to_display_string(), "192.168.1.1:6881");
}

#[test]
fn test_parse_announce_failure_reason() {
    let data = b"d14:failure reason9:not founde";
    let err = parse_announce_response(data);
    assert!(err.is_err());
    assert!(matches!(err, Err(seedcore::error::Error::NetworkError(_))));
}

#[test]
fn test_parse_announce_missing_interval() {
    let data = b"d5:peers0:e";
    assert!(parse_announce_response(data).is_err());
}

#[test]
fn test_announce_event_strings() {
    assert!(AnnounceEvent::Regular.as_str().is_none());
    assert_eq!(AnnounceEvent::Started.as_str(), Some("started"));
    assert_eq!(AnnounceEvent::Completed.as_str(), Some("completed"));
    assert_eq!(AnnounceEvent::Stopped.as_str(), Some("stopped"));
}
