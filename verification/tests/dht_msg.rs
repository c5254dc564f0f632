use btrs::dht::id::NodeId;
use btrs::dht::msg::{AnnouncePeer, Error, ErrorKind, FindNode, GetPeers, Msg, MsgError, Ping, QueryKind, TxnId};

#[test]
fn request_ping() {
    let request = Ping {
        txn_id: TxnId(10),
        id: &NodeId::all(1),
    };

    let encoded = request.encode_to_vec();
    let expected = b"d1:ad2:id20:\x01\x01\x01\x01\x01\x01\x01\x01\x01\x01\x01\x01\x01\x01\x01\x01\x01\x01\x01\x01e1:q4:ping1:t2:\x00\n1:y1:qe";
    assert_eq!(encoded[..], expected[..]);
}

#[test]
fn request_find_node() {
    let request = FindNode {
        txn_id: TxnId(10),
        id: &NodeId::all(1),
        target: &NodeId::all(2),
    };

    let encoded = request.encode_to_vec();
    let expected = b"d1:ad2:id20:\x01\x01\x01\x01\x01\x01\x01\x01\x01\x01\x01\x01\x01\x01\x01\x01\x01\x01\x01\x016:target20:\x02\x02\x02\x02\x02\x02\x02\x02\x02\x02\x02\x02\x02\x02\x02\x02\x02\x02\x02\x02e1:q9:find_node1:t2:\x00\n1:y1:qe";
    assert_eq!(encoded[..], expected[..]);
}

#[test]
fn request_get_peers() {
    let request = GetPeers {
        txn_id: TxnId(10),
        id: &NodeId::all(1),
        info_hash: &NodeId::all(2),
    };

    let encoded = request.encode_to_vec();
    let expected = b"d1:ad2:id20:\x01\x01\x01\x01\x01\x01\x01\x01\x01\x01\x01\x01\x01\x01\x01\x01\x01\x01\x01\x019:info_hash20:\x02\x02\x02\x02\x02\x02\x02\x02\x02\x02\x02\x02\x02\x02\x02\x02\x02\x02\x02\x02e1:q9:get_peers1:t2:\x00\n1:y1:qe";
    assert_eq!(encoded[..], expected[..]);
}

#[test]
fn request_announce_peer() {
    let request = AnnouncePeer {
        txn_id: TxnId(10),
        id: &NodeId::all(1),
        info_hash: &NodeId::all(2),
        implied_port: false,
        port: 5000,
        token: &[0, 1, 2],
    };

    let encoded = request.encode_to_vec();
    let expected = b"d1:ad2:id20:\x01\x01\x01\x01\x01\x01\x01\x01\x01\x01\x01\x01\x01\x01\x01\x01\x01\x01\x01\x019:info_hash20:\x02\x02\x02\x02\x02\x02\x02\x02\x02\x02\x02\x02\x02\x02\x02\x02\x02\x02\x02\x024:porti5000e5:token3:\x00\x01\x02e1:q13:announce_peer1:t2:\x00\n1:y1:qe";
    assert_eq!(encoded[..], expected[..]);
}

#[test]
fn request_announce_peer_implied_port() {
    let request = AnnouncePeer {
        txn_id: TxnId(10),
        id: &NodeId::all(1),
        info_hash: &NodeId::all(2),
        implied_port: true,
        port: 5000,
        token: &[0, 1, 2],
    };

    let encoded = request.encode_to_vec();
    let expected = b"d1:ad2:id20:\x01\x01\x01\x01\x01\x01\x01\x01\x01\x01\x01\x01\x01\x01\x01\x01\x01\x01\x01\x0112:implied_porti1e9:info_hash20:\x02\x02\x02\x02\x02\x02\x02\x02\x02\x02\x02\x02\x02\x02\x02\x02\x02\x02\x02\x025:token3:\x00\x01\x02e1:q13:announce_peer1:t2:\x00\n1:y1:qe";
    assert_eq!(encoded[..], expected[..]);
}

#[test]
fn msg_incoming_ping() {
    let expected: &[u8] = b"d1:ad2:id20:\x01\x01\x01\x01\x01\x01\x01\x01\x01\x01\x01\x01\x01\x01\x01\x01\x01\x01\x01\x01e1:q4:ping1:t2:\x00\n1:y1:qe";
    let msg = Msg::decode(expected).unwrap();

    match msg {
        Msg::Query(query) => {
            assert_eq!(query.kind, QueryKind::Ping);
            assert_eq!(query.id, NodeId::all(1));
            assert_eq!(query.txn_id, TxnId(10));
            assert_eq!(expected, &query.body[..]);
        }
        _ => {
            panic!("Incorrect msg type");
        }
    }
}

#[test]
fn recv_incoming_ping() {
    let expected: &[u8] = b"d1:ad2:id20:\x01\x01\x01\x01\x01\x01\x01\x01\x01\x01\x01\x01\x01\x01\x01\x01\x01\x01\x01\x01e1:q4:ping1:t2:\x00\n1:y1:qe";
    let msg = Msg::decode(expected).unwrap();

    match msg {
        Msg::Query(query) => {
            assert_eq!(query.kind, QueryKind::Ping);
            assert_eq!(query.id, NodeId::all(1));
            assert_eq!(query.txn_id, TxnId(10));
            assert_eq!(
                &b"d2:id20:\x01\x01\x01\x01\x01\x01\x01\x01\x01\x01\x01\x01\x01\x01\x01\x01\x01\x01\x01\x01e"[..],
                &query.args[..]
            );
        }
        _ => {
            panic!("Incorrect msg type");
        }
    }
}

#[test]
fn decode_response_and_error() {
    let resp: &[u8] = b"d1:rd2:id20:\x02\x02\x02\x02\x02\x02\x02\x02\x02\x02\x02\x02\x02\x02\x02\x02\x02\x02\x02\x02e1:t2:\x01\x021:y1:re";
    match Msg::decode(resp).unwrap() {
        Msg::Response(r) => {
            assert_eq!(r.id, NodeId::all(2));
            assert_eq!(r.txn_id, TxnId(0x0102));
        }
        _ => panic!("Incorrect msg type"),
    }

    let err: &[u8] = b"d1:eli201e7:Generice1:t2:\x00\x011:y1:ee";
    match Msg::decode(err).unwrap() {
        Msg::Error(e) => {
            assert_eq!(e.txn_id, TxnId(1));
            assert_eq!(e.list, None);
        }
        _ => panic!("Incorrect msg type"),
    }
}

#[test]
fn decode_errors() {
    assert_eq!(MsgError::Bencode, Msg::decode(b"d1:a").unwrap_err());
    assert_eq!(MsgError::NotADict, Msg::decode(b"i42e").unwrap_err());
    assert_eq!(MsgError::MissingType, Msg::decode(b"d1:t2:aae").unwrap_err());
    assert_eq!(MsgError::MissingTxnId, Msg::decode(b"d1:y1:qe").unwrap_err());
    assert_eq!(MsgError::BadTxnId, Msg::decode(b"d1:t1:a1:y1:qe").unwrap_err());
    assert_eq!(MsgError::MissingQueryType, Msg::decode(b"d1:t2:aa1:y1:qe").unwrap_err());
    assert_eq!(MsgError::UnknownQueryType, Msg::decode(b"d1:q3:foo1:t2:aa1:y1:qe").unwrap_err());
    assert_eq!(MsgError::MissingArgs, Msg::decode(b"d1:q4:ping1:t2:aa1:y1:qe").unwrap_err());
    assert_eq!(MsgError::MissingId, Msg::decode(b"d1:ade1:q4:ping1:t2:aa1:y1:qe").unwrap_err());
    assert_eq!(MsgError::BadIdLength, Msg::decode(b"d1:ad2:id1:xe1:q4:ping1:t2:aa1:y1:qe").unwrap_err());
    assert_eq!(MsgError::MissingResponse, Msg::decode(b"d1:t2:aa1:y1:re").unwrap_err());
    assert_eq!(MsgError::UnknownMessageType, Msg::decode(b"d1:t2:aa1:y1:ze").unwrap_err());
}

#[test]
fn error_encoding_and_txn_ids() {
    let e = Error { kind: ErrorKind::Protocol, description: "bad".to_string() };
    let mut buf = vec![];
    e.encode(&mut buf);
    assert_eq!(&b"i203e3:bad"[..], &buf[..]);

    let mut t = TxnId(u16::MAX);
    assert_eq!(TxnId(u16::MAX), t.next_id());
    assert_eq!(TxnId(0), t);
    assert_eq!(&b"2:\x00\x00"[..], &t.encode_to_vec()[..]);
}
