//! Magnet URI parsing: the required info hash in both spellings, optional
//! fields, and percent-decoding.

use seedcore::magnet::MagnetLink;

#[test]
fn test_parse_simple_magnet() {
    let uri = "magnet:?xt=urn:btih:0123456789abcdef0123456789abcdef01234567";
    let magnet = MagnetLink::parse(uri).unwrap();

    assert_eq!(
        magnet.info_hash_hex(),
        "0123456789abcdef0123456789abcdef01234567"
    );
    assert_eq!(magnet.display_name, None);
    assert_eq!(magnet.trackers.len(), 0);
}

#[test]
fn test_parse_magnet_with_name() {
    let uri = "magnet:?xt=urn:btih:0123456789abcdef0123456789abcdef01234567&dn=Test%20Torrent";
    let magnet = MagnetLink::parse(uri).unwrap();

    assert_eq!(magnet.display_name, Some("Test Torrent".to_string()));
}

#[test]
fn test_parse_magnet_with_tracker() {
    let uri = "magnet:?xt=urn:btih:0123456789abcdef0123456789abcdef01234567&tr=http://tracker.example.com/announce";
    let magnet = MagnetLink::parse(uri).unwrap();

    assert_eq!(magnet.trackers.len(), 1);
    assert_eq!(magnet.trackers[0], "http://tracker.example.com/announce");
}

#[test]
fn test_invalid_magnet() {
    let uri = "http://example.com";
    assert!(MagnetLink::parse(uri).is_err());
}

#[test]
fn test_missing_info_hash() {
    let uri = "magnet:?dn=Test";
    assert!(MagnetLink::parse(uri).is_err());
}

#[test]
fn test_base32_info_hash() {
    // The base32 spelling of twenty 0x00 bytes is thirty-two `a` digits.
    let uri = "magnet:?xt=urn:btih:aaaaaaaaaaaaaaaaaaaaaaaaaaaaaaaa";
    let magnet = MagnetLink::parse(uri).unwrap();
    assert_eq!(magnet.info_hash, [0u8; 20]);

    // "AEBA..." spells the bytes 0x01 0x02: 00000 00100 00001 00000...
    let uri2 = "magnet:?xt=urn:btih:AEBAAAAAAAAAAAAAAAAAAAAAAAAAAAAA";
    let magnet2 = MagnetLink::parse(uri2).unwrap();
    assert_eq!(magnet2.info_hash[0], 0x01);
    assert_eq!(magnet2.info_hash[1], 0x02);
}

#[test]
fn test_bad_hash_length() {
    assert!(MagnetLink::parse("magnet:?xt=urn:btih:abcd").is_err());
    assert!(MagnetLink::parse("magnet:?xt=urn:btih:zz23456789abcdef0123456789abcdef01234567").is_err());
    assert!(MagnetLink::parse("magnet:?xt=nothash").is_err());
}

#[test]
fn test_percent_decoding_matches_urlencoding_crate() {
    // The decoder follows the urlencoding crate that the engine's host
    // uses: stray percent signs survive, %hh pairs decode.
    let samples = [
        "Test%20Torrent",
        "a%2fb%2Fc",
        "plain",
        "100%",
        "%zz",
        "%4",
        "odd%a%41",
    ];
    for s in samples {
        let uri = format!(
            "magnet:?xt=urn:btih:0123456789abcdef0123456789abcdef01234567&dn={}",
            s
        );
        let parsed = MagnetLink::parse(&uri).unwrap();
        let expected = urlencoding::decode(s).unwrap().to_string();
        assert_eq!(parsed.display_name, Some(expected));
    }
}

#[test]
fn test_multiple_trackers_and_web_seeds() {
    let uri = "magnet:?xt=urn:btih:0123456789abcdef0123456789abcdef01234567&tr=http://a/x&tr=http://b/y&ws=http://seed/z";
    let magnet = MagnetLink::parse(uri).unwrap();
    assert_eq!(magnet.trackers, vec!["http://a/x", "http://b/y"]);
    assert_eq!(magnet.web_seeds, vec!["http://seed/z"]);
}
