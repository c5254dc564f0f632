use btrs::dht::contact::SockAddr;
use btrs::dht::id::NodeId;
use btrs::dht::msg::{ErrorResponse, Response, TxnId};
use btrs::dht::rpc::{ResponseVerdict, RpcMgr};
use btrs::dht::table::RoutingTable;
use btrs::metadata::{read_info, FetchError, MetadataFetch};
use btrs::msg::{DataError, ExtendedMessage, MetadataMsg};

#[test]
fn info_dictionary() {
    let info = read_info(b"d6:lengthi1000e4:name3:abc12:piece lengthi256e6:pieces4:wxyze").unwrap();
    assert_eq!(1000, info.length);
    assert_eq!("abc", info.name);
    assert_eq!(256, info.piece_len);
    assert_eq!(b"wxyz".to_vec(), info.piece_hashes);
}

#[test]
fn info_dictionary_without_name() {
    let info = read_info(b"d6:lengthi1e12:piece lengthi2e6:pieces0:e").unwrap();
    assert_eq!("", info.name);
    assert!(info.piece_hashes.is_empty());
}

#[test]
fn info_dictionary_refused() {
    assert!(read_info(b"d4:name1:ae").is_none());
    assert!(read_info(b"li1ee").is_none());
    assert!(read_info(b"d6:lengthi1e12:piece lengthi2ee").is_none());
    assert!(read_info(b"garbage").is_none());
}

fn ext(data: &[u8]) -> ExtendedMessage {
    ExtendedMessage::new(data).unwrap()
}

#[test]
fn metadata_fetch() {
    assert_eq!(
        FetchError::ExpectedExtendedHandshake,
        MetadataFetch::start(&ext(b"\x01de")).unwrap_err()
    );
    assert_eq!(FetchError::NoMetadataExtension, MetadataFetch::start(&ext(b"\x00de")).unwrap_err());

    let mut f = MetadataFetch::start(&ext(b"\x00d1:md11:ut_metadatai3ee13:metadata_sizei5ee")).unwrap();
    assert_eq!(3, f.id);
    assert_eq!(5, f.remaining);
    assert!(!f.is_done());
    assert_eq!(MetadataMsg::Request(0), f.next_request());

    assert_eq!(
        Err(FetchError::ExpectedMetadataMessage),
        f.on_ext(&ext(b"\x04d8:msg_typei1e5:piecei0eeabc"))
    );
    assert_eq!(
        Err(FetchError::Data(DataError::IncorrectPiece)),
        f.on_ext(&ext(b"\x03d8:msg_typei1e5:piecei1eeabc"))
    );
    assert_eq!(Ok(()), f.on_ext(&ext(b"\x03d8:msg_typei1e5:piecei0eeabc")));
    assert_eq!(2, f.remaining);
    assert_eq!(MetadataMsg::Request(1), f.next_request());
    assert_eq!(
        Err(FetchError::IncorrectDataLength),
        f.on_ext(&ext(b"\x03d8:msg_typei1e5:piecei1eexyz"))
    );
    assert_eq!(Ok(()), f.on_ext(&ext(b"\x03d8:msg_typei1e5:piecei1eede")));
    assert!(f.is_done());
    assert_eq!(b"abcde".to_vec(), f.buf);
}

#[test]
fn rpc_answers_and_timeouts() {
    let own = NodeId::of_byte(1);
    let mut table = RoutingTable::new(own, vec![]);
    let mut rpc = RpcMgr::new(own);
    let addr = SockAddr::V4(0x0102_0304, 7);
    let t0 = rpc.new_txn();
    let t1 = rpc.new_txn();
    let t2 = rpc.new_txn();
    assert_eq!(TxnId(0), t0);
    assert_eq!(TxnId(2), t2);
    rpc.track(t0, &NodeId::of_byte(5), &addr, 1, 0);
    rpc.track(t1, &NodeId::new(), &addr, 2, 0);
    rpc.track(t2, &NodeId::of_byte(6), &addr, 3, 10_000);

    let unknown = Response { txn_id: TxnId(9), id: NodeId::of_byte(5), body: b"de".to_vec() };
    assert!(matches!(rpc.handle_ok(&unknown, &mut table), ResponseVerdict::Unknown));

    let wrong = Response { txn_id: t0, id: NodeId::of_byte(7), body: b"de".to_vec() };
    match rpc.handle_ok(&wrong, &mut table) {
        ResponseVerdict::IdMismatch(q) => assert_eq!(1, q.traversal_id),
        _ => panic!("id mismatch not seen"),
    }
    let any = Response { txn_id: t1, id: NodeId::of_byte(7), body: b"de".to_vec() };
    match rpc.handle_ok(&any, &mut table) {
        ResponseVerdict::Accepted(q) => {
            assert!(!q.has_id);
            assert_eq!(2, q.traversal_id);
        }
        _ => panic!("answer not accepted"),
    }
    let gone = rpc.check_timeouts(15_000, &mut table);
    assert_eq!(1, gone.len());
    assert_eq!(t2, gone[0].0);
    let err = ErrorResponse { txn_id: t2, list: None };
    assert!(rpc.handle_error(&err, &mut table).is_none());
}
