use btrs::metainfo::{AnnounceKey, IncorrectLength, InfoHash, Torrent, TorrentFile, TorrentSource};

#[test]
fn info_hash_encodings() {
    let h = InfoHash::from([0xab; 20]);
    assert_eq!("AB".repeat(20), h.encode_hex());
    assert_eq!("%AB".repeat(20), h.encode_url());
    let mut b = [b'a'; 20];
    b[0] = b' ';
    b[1] = b'Z';
    assert_eq!(format!("%20Z{}", "a".repeat(18)), InfoHash::from(b).encode_url());
    assert_eq!("AAAAAAAAAAAAAAAAAAAAAAAAAAAAAAAA", InfoHash::from([0; 20]).encode_base32());
}

#[test]
fn info_hash_from_slices() {
    assert_eq!(Err(IncorrectLength), InfoHash::try_from(&[1u8, 2][..]));
    let h = InfoHash::try_from(&[7u8; 20][..]).unwrap();
    assert_eq!(&[7u8; 20], h.as_ref());
}

#[test]
fn torrent_getters() {
    let t = Torrent::new(
        TorrentSource { metadata: None, exchanged_metadata: vec![1, 2] },
        Some(AnnounceKey("http://t/ann".to_string())),
        InfoHash::from([1; 20]),
        "name".to_string(),
        16384,
        (0u8..45).collect(),
        100,
        vec![TorrentFile { len: 100, path: "a/b".to_string() }],
        true,
        None,
        Some("me".to_string()),
    );
    assert_eq!("name", t.name());
    assert_eq!(16384, t.chunk_size());
    assert_eq!(100, t.len());
    assert!(t.is_private());
    assert_eq!(&InfoHash::from([1; 20]), t.torrent_id());
    assert_eq!(Some(&AnnounceKey("http://t/ann".to_string())), t.announce_key());
    assert_eq!(1, t.files().len());
    assert!(t.created().is_none());
    assert_eq!(Some("me"), t.created_by());
    assert_eq!(vec![1, 2], t.source().exchanged_metadata);
    let hashes = t.chunk_hashes();
    assert_eq!(3, hashes.len());
    assert_eq!(20, hashes[0].len());
    assert_eq!(&[40u8, 41, 42, 43, 44][..], hashes[2]);
}
