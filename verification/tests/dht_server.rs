use btrs::dht::contact::SockAddr;
use btrs::dht::id::NodeId;
use btrs::dht::msg::{Response, TxnId};
use btrs::dht::requests::DhtRequest;
use btrs::dht::server::Dht;

const ROUTER: SockAddr = SockAddr::V4(0x0a00_0001, 6881);
const PEER: SockAddr = SockAddr::V4(0x0102_0304, 999);

#[test]
fn replies_go_to_the_request_that_awaits_them() {
    let mut dht = Dht::new(vec![ROUTER]);
    assert!(dht.running.is_empty());
    assert_eq!(0, dht.table.len());

    dht.submit_get_peers(&NodeId::of_byte(0x22));
    dht.submit_ping(&NodeId::of_byte(0x80), &PEER, 1_000);
    assert_eq!(2, dht.running.len());
    assert!(matches!(dht.running[0], DhtRequest::GetPeers(_)));
    if let DhtRequest::Ping(p) = &mut dht.running[1] {
        assert!(!p.invoke_sent(TxnId(5), true));
    } else {
        panic!("the second request is the ping");
    }

    let stray = Response { txn_id: TxnId(6), id: NodeId::of_byte(0x80), body: b"de".to_vec() };
    let (who, peers) = dht.dispatch_response(&stray, &PEER);
    assert_eq!(None, who);
    assert!(peers.is_empty());

    let resp = Response { txn_id: TxnId(5), id: NodeId::of_byte(0x80), body: b"de".to_vec() };
    let (who, peers) = dht.dispatch_response(&resp, &PEER);
    assert_eq!(Some(1), who);
    assert!(peers.is_empty());
    assert_eq!(1, dht.table.len());
}

#[test]
fn pruning_ends_pings_left_unanswered() {
    let mut dht = Dht::new(vec![]);
    dht.submit_ping(&NodeId::of_byte(0x81), &PEER, 1_000);
    dht.prune_running(11_000);
    assert!(matches!(&dht.running[0], DhtRequest::Ping(p) if !p.done));
    dht.prune_running(11_001);
    assert!(matches!(&dht.running[0], DhtRequest::Ping(p) if p.done));

    let own = dht.own_id;
    dht.submit_refresh(&own);
    dht.submit_announce(&NodeId::of_byte(0x33));
    assert!(matches!(dht.running[1], DhtRequest::Bootstrap(_)));
    assert!(matches!(dht.running[2], DhtRequest::Announce(_)));
    // A fresh table has no stale bucket.
    assert!(dht.refresh_step(1_000).is_none());
    assert_eq!(3, dht.running.len());
}
