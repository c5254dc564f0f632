use btrs::announce::{
    announce_url, http_body_start,
    connect_id, parse_response, parse_udp_announce, read_response, resolve_target, tracker_kind, write_announce,
    write_connect, AnnounceError, AnnounceRequest, BufferTooSmall, Event, ResolveError, Tracker, TrackerKind,
    UdpError, MIN_TRACKER_INTERVAL,
};
use btrs::dht::contact::SockAddr;
use btrs::metainfo::InfoHash;

#[test]
fn compact_peers() {
    let data = b"d8:intervali1800e5:peers12:\x01\x02\x03\x04\x1a\xe1\x05\x06\x07\x08\x00\x50e";
    let resp = parse_response(data).unwrap();
    assert_eq!(1800, resp.interval);
    assert_eq!(vec![SockAddr::V4(0x0102_0304, 6881), SockAddr::V4(0x0506_0708, 80)], resp.peers);
    assert!(resp.peers6.is_empty());
    assert!(resp.resolved_addr.is_none());
}

#[test]
fn dictionary_peers() {
    let data = b"d5:peersld2:ip7:1.2.3.44:porti80eed2:ip3:::14:porti6881eeee";
    let resp = parse_response(data).unwrap();
    assert_eq!(0, resp.interval);
    assert_eq!(vec![SockAddr::V4(0x0102_0304, 80), SockAddr::V6(1, 6881)], resp.peers);
}

#[test]
fn ipv6_compact_peers() {
    let mut data = b"d6:peers618:".to_vec();
    data.extend_from_slice(&[0; 15]);
    data.extend_from_slice(&[1, 0, 80]);
    data.extend_from_slice(b"e");
    let resp = parse_response(&data).unwrap();
    assert_eq!(vec![SockAddr::V6(1, 80)], resp.peers6);
    assert!(resp.peers.is_empty());
}

#[test]
fn refused_answers() {
    assert_eq!(AnnounceError::Bencode, parse_response(b"d8:interval").unwrap_err());
    assert_eq!(AnnounceError::NotADict, parse_response(b"i3e").unwrap_err());
    assert_eq!(AnnounceError::InvalidPeerLen, parse_response(b"d5:peers5:abcdee").unwrap_err());
    assert_eq!(AnnounceError::InvalidPeerLen, parse_response(b"d6:peers65:abcdee").unwrap_err());
    assert_eq!(AnnounceError::PeerNotADict, parse_response(b"d5:peersli1eee").unwrap_err());
    assert_eq!(AnnounceError::IpNotPresent, parse_response(b"d5:peersld4:porti1eeee").unwrap_err());
    assert_eq!(AnnounceError::InvalidIp, parse_response(b"d5:peersld2:ip4:host4:porti1eeee").unwrap_err());
    assert_eq!(AnnounceError::PortNotPresent, parse_response(b"d5:peersld2:ip7:1.2.3.4eee").unwrap_err());
    assert_eq!(
        AnnounceError::InvalidPortNumber,
        parse_response(b"d5:peersld2:ip7:1.2.3.44:port2:80eee").unwrap_err()
    );
}

#[test]
fn negative_interval_is_zero() {
    let resp = parse_response(b"d8:intervali-5ee").unwrap();
    assert_eq!(0, resp.interval);
}

#[test]
fn udp_connect_packet() {
    let mut buf = [0u8; 20];
    assert_eq!(Ok(16), write_connect(0x0102_0304, &mut buf));
    assert_eq!(
        [0x00, 0x00, 0x04, 0x17, 0x27, 0x10, 0x19, 0x80, 0, 0, 0, 0, 1, 2, 3, 4],
        buf[..16]
    );
    let mut small = [0u8; 15];
    assert_eq!(Err(BufferTooSmall), write_connect(1, &mut small));
}

#[test]
fn udp_announce_packet() {
    let req = AnnounceRequest::new("udp://t:1", None, &InfoHash::from([7; 20]), &[9; 20], 6881);
    let mut buf = [0u8; 100];
    assert_eq!(Ok(98), write_announce(0x1122_3344_5566_7788, 5, &req, &mut buf));
    assert_eq!([0x11, 0x22, 0x33, 0x44, 0x55, 0x66, 0x77, 0x88, 0, 0, 0, 1, 0, 0, 0, 5], buf[..16]);
    assert_eq!([7; 20], buf[16..36]);
    assert_eq!([9; 20], buf[36..56]);
    assert_eq!([0; 24], buf[56..80]);
    assert_eq!([0, 0, 0, 0], buf[80..84]);
    assert_eq!([0xff, 0xff, 0xff, 0xff], buf[92..96]);
    assert_eq!([0x1a, 0xe1], buf[96..98]);
    let mut small = [0u8; 97];
    assert_eq!(Err(BufferTooSmall), write_announce(1, 1, &req, &mut small));
}

#[test]
fn event_codes() {
    assert_eq!(0, Event::NoEvent.code());
    assert_eq!(1, Event::Completed.code());
    assert_eq!(2, Event::Started.code());
    assert_eq!(3, Event::Stopped.code());
}

#[test]
fn udp_answers() {
    let mut pkt = vec![0, 0, 0, 0, 0, 0, 0, 9];
    pkt.extend_from_slice(&[0, 0, 0, 1, 0, 0, 0, 2]);
    assert_eq!(Ok(()), read_response(true, &pkt, 0, 9, 16));
    assert_eq!(0x1_0000_0002, connect_id(&pkt));
    assert_eq!(Err(UdpError::UnexpectedAddress), read_response(false, &pkt, 0, 9, 16));
    assert_eq!(Err(UdpError::PacketTooSmall), read_response(true, &pkt, 0, 9, 20));
    assert_eq!(Err(UdpError::IncorrectAction), read_response(true, &pkt, 1, 9, 16));
    assert_eq!(Err(UdpError::TxnIdMismatch), read_response(true, &pkt, 0, 8, 16));
}

#[test]
fn udp_announce_answer() {
    let tracker = SockAddr::V4(0x0a00_0001, 1337);
    let mut pkt = vec![0, 0, 0, 1, 0, 0, 0, 5, 0, 0, 0x07, 0x08, 0, 0, 0, 0, 0, 0, 0, 0];
    pkt.extend_from_slice(&[1, 2, 3, 4, 0, 80]);
    pkt.extend_from_slice(&[5, 6, 7, 8, 0, 81]);
    pkt.extend_from_slice(&[1, 2, 3, 4, 0, 80]);
    let resp = parse_udp_announce(&pkt, tracker).unwrap();
    assert_eq!(0x0708, resp.interval);
    assert_eq!(Some(tracker), resp.resolved_addr);
    assert_eq!(vec![SockAddr::V4(0x0102_0304, 80), SockAddr::V4(0x0506_0708, 81)], resp.peers);
    pkt.push(0);
    assert_eq!(UdpError::InvalidPeers, parse_udp_announce(&pkt, tracker).unwrap_err());
}

#[test]
fn tracker_kinds() {
    assert_eq!(Some(TrackerKind::Http), tracker_kind("http://t/announce"));
    assert_eq!(Some(TrackerKind::Http), tracker_kind("https://t/announce"));
    assert_eq!(Some(TrackerKind::Udp), tracker_kind("udp://t:80"));
    assert_eq!(None, tracker_kind("wss://t"));
}

#[test]
fn udp_targets() {
    assert_eq!(Ok(("tracker.example".to_string(), 1337)), resolve_target("udp://tracker.example:1337/announce"));
    assert_eq!(Err(ResolveError::InvalidUrl), resolve_target("not a url"));
    assert_eq!(Err(ResolveError::NotUdp), resolve_target("http://t:80/"));
    assert_eq!(Err(ResolveError::MissingPort), resolve_target("udp://t/"));
}

#[test]
fn tracker_interval_has_a_floor() {
    let mut t = Tracker::new("udp://t:1".to_string());
    assert_eq!(MIN_TRACKER_INTERVAL, t.interval);
    let resp = parse_response(b"d8:intervali3ee").unwrap();
    t.after_announce(Some(&resp));
    assert_eq!(MIN_TRACKER_INTERVAL, t.interval);
    let resp = parse_response(b"d8:intervali900ee").unwrap();
    t.after_announce(Some(&resp));
    assert_eq!(900, t.interval);
    t.after_announce(None);
    assert_eq!(900, t.interval);
}

#[test]
fn http_body_follows_the_first_blank_line() {
    let answer = b"HTTP/1.0 200 OK\r\nContent-Type: text/plain\r\n\r\nd8:intervali5ee\r\n\r\n";
    let start = http_body_start(answer).unwrap();
    assert_eq!(&answer[start..start + 3], b"d8:");
    assert_eq!(None, http_body_start(b"HTTP/1.0 200 OK\r\n"));
    assert_eq!(None, http_body_start(b"\r\n"));
    assert_eq!(Some(4), http_body_start(b"\r\n\r\n"));
}

#[test]
fn http_announce_url() {
    let ih = InfoHash::from([0x41; 20]);
    let mut pid = [b'x'; 20];
    pid[0] = b'-';
    let url = announce_url("http://t.example/announce", &ih, &pid, 6881);
    let expected = format!(
        "http://t.example/announce?info_hash={}&peer_id=%2D{}&port=6881&uploaded=0&downloaded=0&compact=1",
        "A".repeat(20),
        "x".repeat(19)
    );
    assert_eq!(expected.as_bytes(), &url[..]);
    let url = announce_url("u", &InfoHash::from([0xff; 20]), &[b'a'; 20], 0);
    assert!(String::from_utf8(url).unwrap().starts_with("u?info_hash=%FF%FF"));
}
