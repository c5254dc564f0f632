use btrs::dht::contact::SockAddr;
use btrs::magnet::{MagnetError, MagnetUri};
use btrs::metainfo::InfoHash;
use std::collections::HashSet;

fn parse(s: &str) -> Result<MagnetUri, MagnetError> {
    MagnetUri::parse(s)
}

#[test]
fn parse_hex_infohash() {
    let infohash = InfoHash::from([12; 20]);
    let s = format!("magnet:?xt=urn:btih:{}", infohash.encode_hex());
    let magnet = parse(&s).unwrap();
    assert_eq!(infohash, magnet.info_hash);
}

#[test]
fn parse_base32_infohash() {
    let infohash = InfoHash::from([12; 20]);
    let s = format!("magnet:?xt=urn:btih:{}", infohash.encode_base32());
    let magnet = parse(&s).unwrap();
    assert_eq!(infohash, magnet.info_hash);
}

#[test]
fn parse_all_params_present() {
    let infohash = InfoHash::from([0; 20]);
    let display_name = "xyz";
    let tracker_url_1 = "http://jupiter.gx/ann";
    let tracker_url_2 = "udp://jupiter.gx:1111";
    let peer_1 = "1.1.1.1:10000";
    let peer_2 = "2.2.2.2:10000";
    let s = format!(
        "magnet:?xt=urn:btih:{}&dn={}&tr={}&tr={}&x.pe={}&x.pe={}",
        infohash.encode_hex(),
        display_name,
        tracker_url_1,
        tracker_url_2,
        peer_1,
        peer_2
    );
    let magnet = parse(&s).unwrap();
    assert_eq!(infohash, magnet.info_hash);
    assert_eq!(display_name, magnet.display_name.unwrap());

    let urls: HashSet<&str> = magnet.tracker_urls.iter().map(|s| &s[..]).collect();
    let expected: HashSet<&str> = [tracker_url_1, tracker_url_2].iter().copied().collect();
    assert_eq!(expected, urls);

    let peers: &[SockAddr] = &[
        SockAddr::V4(0x0101_0101, 10000),
        SockAddr::V4(0x0202_0202, 10000),
    ];
    assert_eq!(peers, &magnet.peer_addrs[..]);
}

#[test]
fn parse_only_infohash_present() {
    let infohash = InfoHash::from([0; 20]);
    let s = format!("magnet:?xt=urn:btih:{}", infohash.encode_hex());
    let magnet = parse(&s).unwrap();
    assert_eq!(infohash, magnet.info_hash);
}

#[test]
fn parse_both_infohash_and_multihash_present() {
    let infohash = InfoHash::from([0; 20]);
    let multihash = InfoHash::from([1; 20]);
    let s = format!(
        "magnet:?xt=urn:btih:{}&xt=urn:btmh:{}",
        infohash.encode_hex(),
        multihash.encode_hex(),
    );
    let magnet = parse(&s).unwrap();
    assert_eq!(infohash, magnet.info_hash);
}

#[test]
fn parse_multiple_infohashes_present() {
    let infohash_1 = InfoHash::from([0; 20]);
    let infohash_2 = InfoHash::from([1; 20]);
    let s = format!(
        "magnet:?xt=urn:btih:{}&xt=urn:btih:{}",
        infohash_1.encode_hex(),
        infohash_2.encode_hex(),
    );
    let err = parse(&s).unwrap_err();
    assert_eq!("Multiple infohashes found", err.as_str());
}

#[test]
fn parse_multiple_identical_infohashes_present() {
    let infohash = InfoHash::from([0; 20]);
    let s = format!(
        "magnet:?xt=urn:btih:{}&xt=urn:btih:{}",
        infohash.encode_hex(),
        infohash.encode_hex(),
    );
    let magnet = parse(&s).unwrap();
    assert_eq!(infohash, magnet.info_hash);
}

#[test]
fn parse_invalid_peer_addr_no_err() {
    let infohash = InfoHash::from([0; 20]);
    let peer = "xxxyyyzzz";
    let s = format!("magnet:?xt=urn:btih:{}&x.pe={}", infohash.encode_hex(), peer);
    let magnet = MagnetUri::parse_lenient(&s).unwrap();
    assert_eq!(infohash, magnet.info_hash);
    assert!(magnet.peer_addrs.is_empty());
}

#[test]
fn parse_refusals() {
    assert_eq!(MagnetError::InvalidUri, parse("not a uri").unwrap_err());
    assert_eq!(MagnetError::IncorrectScheme, parse("http://x/?xt=urn:btih:00").unwrap_err());
    assert_eq!(MagnetError::NoInfohash, parse("magnet:?dn=x").unwrap_err());
    assert_eq!(MagnetError::InvalidInfohashLength, parse("magnet:?xt=urn:btih:00").unwrap_err());
    let bad_hex = format!("magnet:?xt=urn:btih:{}", "zz".repeat(20));
    assert_eq!(MagnetError::InvalidHex, parse(&bad_hex).unwrap_err());
    let bad_peer = format!("magnet:?xt=urn:btih:{}&x.pe=nope", "00".repeat(20));
    assert_eq!(MagnetError::InvalidPeerAddr, parse(&bad_peer).unwrap_err());
}

#[test]
fn repeated_tracker_kept_once() {
    let s = format!("magnet:?xt=urn:btih:{}&tr=a&tr=b&tr=a", "00".repeat(20));
    let magnet = parse(&s).unwrap();
    assert_eq!(vec!["a".to_string(), "b".to_string()], magnet.tracker_urls);
}
