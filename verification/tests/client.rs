use btrs::client::enums::Priority;
use btrs::client::handshake::{Handshake, HandshakeError};
use btrs::client::msg::{BitFieldMessage, Message as _};
use btrs::client::state::Client;
use btrs::metainfo::InfoHash;
use btrs::msg::Message;
use btrs::peer::Extensions;

fn handshake_bytes(ext: [u8; 8], ih: [u8; 20], pid: [u8; 20]) -> Vec<u8> {
    let mut v = vec![19];
    v.extend_from_slice(b"BitTorrent protocol");
    v.extend_from_slice(&ext);
    v.extend_from_slice(&ih);
    v.extend_from_slice(&pid);
    v
}

#[test]
fn handshake_write() {
    let ih = InfoHash::from([3; 20]);
    let pid = [4u8; 20];
    let mut hs = Handshake::new(&ih, &pid);
    hs.set_extended(true);
    let mut out = Vec::new();
    hs.write(&mut out);
    assert_eq!(handshake_bytes([0, 0, 0, 0, 0, 0x10, 0, 0], [3; 20], [4; 20]), out);
    hs.set_extended(false);
    let mut out = Vec::new();
    hs.write(&mut out);
    assert_eq!(handshake_bytes([0; 8], [3; 20], [4; 20]), out);
}

#[test]
fn handshake_read() {
    let ih = InfoHash::from([3; 20]);
    let pid = [4u8; 20];
    let hs = Handshake::with_extensions(&ih, &pid, Extensions::new([1, 2, 3, 4, 5, 6, 7, 8]));
    let theirs = handshake_bytes([9; 8], [3; 20], [7; 20]);
    let buf: [u8; 68] = theirs.try_into().unwrap();
    let res = hs.read(&buf).unwrap();
    assert_eq!([9; 8], res.extensions.0);
    assert_eq!(InfoHash::from([3; 20]), res.info_hash);
    assert_eq!([7; 20], res.peer_id);

    let other: [u8; 68] = handshake_bytes([0; 8], [5; 20], [7; 20]).try_into().unwrap();
    assert_eq!(HandshakeError::InfoHashMismatch, hs.read(&other).unwrap_err());
    let mut bad = handshake_bytes([0; 8], [3; 20], [7; 20]);
    bad[0] = 18;
    let bad: [u8; 68] = bad.try_into().unwrap();
    assert_eq!(HandshakeError::InvalidProtocol, hs.read(&bad).unwrap_err());
}

#[test]
fn handshake_roundtrip() {
    let ih = InfoHash::from([0xab; 20]);
    let pid = [0x11u8; 20];
    let hs = Handshake::with_extensions(&ih, &pid, Extensions::new([0, 0, 0, 0, 0, 0x10, 0, 1]));
    let mut out = Vec::new();
    hs.write(&mut out);
    let buf: [u8; 68] = out.try_into().unwrap();
    let res = hs.read(&buf).unwrap();
    assert_eq!([0, 0, 0, 0, 0, 0x10, 0, 1], res.extensions.0);
    assert_eq!(pid, res.peer_id);
}

#[test]
fn client_state() {
    let mut c = Client::new();
    assert!(c.choked);
    assert_eq!(None, c.handle(Message::Unchoke, vec![]));
    assert!(!c.choked);
    assert_eq!(None, c.handle(Message::Bitfield { len: 2 }, vec![0b0000_0001, 0b1000_0000]));
    assert_eq!(16, c.bitfield.len());
    assert!(c.bitfield.get(0));
    assert!(!c.bitfield.get(1));
    assert!(c.bitfield.get(15));
    assert_eq!(None, c.handle(Message::Have { index: 3 }, vec![]));
    assert!(c.bitfield.get(3));
    assert_eq!(None, c.handle(Message::Have { index: 99 }, vec![]));
    assert_eq!(16, c.bitfield.len());
    assert_eq!(Some(Message::Interested), c.handle(Message::Interested, vec![]));
    assert_eq!(None, c.handle(Message::Choke, vec![]));
    assert!(c.choked);
}

#[test]
fn bitfield_message_encoding() {
    let mut m = BitFieldMessage::new(10);
    m.field.set(0, true);
    m.field.set(9, true);
    assert_eq!(vec![0, 0, 0, 2, 5, 0b0000_0001, 0b0000_0010], m.encode());
}

#[test]
fn priority_values() {
    assert_eq!(0, Priority::DontDownload.value());
    assert_eq!(1, Priority::Lowest.value());
    assert_eq!(4, Priority::Normal.value());
    assert_eq!(32, Priority::Immediate.value());
}
