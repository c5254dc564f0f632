use btrs::dht::contact::{to_ipv6, unmap_ipv4, ContactRef, SockAddr};
use btrs::dht::id::{NodeId, UniformNodeId};
use btrs::dht::lookups::{GetPeersTraversal, PingRequest};
use btrs::bencode::is_parser_safe;
use btrs::dht::msg::{Msg, Response, TxnId};
use btrs::dht::requests::DhtRequest;
use btrs::dht::table::RoutingTable;
use btrs::dht::traversal::{InvokeStep, Lookup, Transactions, ALIVE, FAILED, NO_ID, QUERIED};

const ROUTER: SockAddr = SockAddr::V4(0x0a00_0001, 6881);

fn id(b: u8) -> NodeId {
    NodeId::of_byte(b)
}

#[test]
fn transactions_insert_remove() {
    let mut t = Transactions::new();
    assert!(t.is_empty());
    t.insert(TxnId(1), &id(1), true, &ROUTER, 100, 0);
    t.insert(TxnId(2), &id(2), false, &ROUTER, 200, 0);
    t.insert(TxnId(1), &id(3), true, &ROUTER, 300, 0);
    let r = t.remove(TxnId(1)).unwrap();
    assert_eq!(id(3), r.id);
    assert_eq!(300, r.sent);
    assert!(t.remove(TxnId(1)).is_none());
    assert!(!t.is_empty());
}

#[test]
fn transactions_expire_after_timeout() {
    let mut t = Transactions::with_timeout(1000);
    t.insert(TxnId(1), &id(1), true, &ROUTER, 100, 0);
    t.insert(TxnId(2), &id(2), true, &ROUTER, 900, 0);
    assert!(t.take_expired(1099).is_empty());
    let gone = t.take_expired(1100);
    assert_eq!(1, gone.len());
    assert_eq!(TxnId(1), gone[0].0);
    // A clock reading before the sending counts as no time.
    assert!(t.take_expired(0).is_empty());
    assert_eq!(1, t.take_expired(5000).len());
    assert!(t.is_empty());
}

#[test]
fn lookup_from_routers_queries_and_prunes() {
    let own = id(0x11);
    let mut table = RoutingTable::new(own, vec![ROUTER]);
    let mut lookup = Lookup::new(&id(0x22), &own, &table, false);
    assert_eq!(1, lookup.nodes.len());
    // The table keeps routers in IPv6 form.
    assert_eq!(to_ipv6(ROUTER), lookup.nodes[0].addr);
    assert!(lookup.nodes[0].id.is_zero());
    assert_eq!(NO_ID, lookup.nodes[0].status & NO_ID);

    let mut cur = lookup.invoke_start();
    assert_eq!(InvokeStep::Query(0), lookup.invoke_next(&mut cur));
    lookup.invoke_sent(&mut cur, 0, TxnId(7), true, 1_000);
    assert_eq!(QUERIED, lookup.nodes[0].status & QUERIED);
    assert_eq!(InvokeStep::Finished, lookup.invoke_next(&mut cur));
    assert_eq!(1, cur.outstanding);

    lookup.prune(3_000, &mut table);
    assert!(!lookup.txns.is_empty());
    assert_eq!(0, lookup.nodes[0].status & FAILED);

    lookup.prune(6_000, &mut table);
    assert!(lookup.txns.is_empty());
    assert_eq!(FAILED, lookup.nodes[0].status & FAILED);
}

#[test]
fn lookup_reply_adds_nodes_and_peers() {
    let own = id(0x11);
    let mut table = RoutingTable::new(own, vec![ROUTER]);
    let mut t = GetPeersTraversal::new(&id(0x22), &own, &table);
    let mut cur = t.lookup.invoke_start();
    assert_eq!(InvokeStep::Query(0), t.lookup.invoke_next(&mut cur));
    t.lookup.invoke_sent(&mut cur, 0, TxnId(3), true, 0);

    let mut body = b"d2:id20:".to_vec();
    body.extend_from_slice(&[0x33; 20]);
    body.extend_from_slice(b"5:nodes26:");
    body.extend_from_slice(&[0x23; 20]);
    body.extend_from_slice(&[1, 2, 3, 4, 0x1a, 0xe1]);
    body.extend_from_slice(b"6:valuesl6:");
    body.extend_from_slice(&[5, 6, 7, 8, 0, 80]);
    body.extend_from_slice(b"ee");
    let resp = Response { txn_id: TxnId(3), id: id(0x33), body };

    let router = to_ipv6(ROUTER);
    assert!(t.handle_reply(&resp, &router, &mut table));
    assert_eq!(vec![SockAddr::V4(0x0506_0708, 80)], t.peers);
    assert_eq!(2, t.lookup.nodes.len());
    // The node learned from the reply joins the lookup; the router's entry
    // carries a random id, so the order between the two is not fixed here.
    assert!(t.lookup.nodes.iter().any(|n| n.id == id(0x23)));
    assert!(t.lookup.nodes.iter().any(|n| n.addr == router && n.status & ALIVE == ALIVE));
    assert!(t.lookup.txns.is_empty());

    // The same transaction again belongs to no query.
    assert!(!t.handle_reply(&resp, &router, &mut table));
}

#[test]
fn ping_request_life() {
    let own = id(1);
    let mut table = RoutingTable::new(own, vec![]);
    let peer = SockAddr::V4(0x0102_0304, 999);
    let mut p = PingRequest::new(&own, &id(0x80), &peer, 50_000);
    assert!(p.invoke_needed());
    assert!(!p.invoke_sent(TxnId(9), true));
    assert_eq!(TxnId(9), p.txn_id);
    assert_eq!(QUERIED, p.node.status & QUERIED);

    p.prune(59_000, &mut table);
    assert!(!p.done);

    let wrong = Response { txn_id: TxnId(8), id: id(0x80), body: b"de".to_vec() };
    assert!(!p.handle_reply(&wrong, &peer, &mut table));
    let right = Response { txn_id: TxnId(9), id: id(0x80), body: b"de".to_vec() };
    assert!(p.handle_reply(&right, &peer, &mut table));
    assert!(p.done);
    assert!(!p.invoke_needed());
    assert_eq!(1, table.len());
}

#[test]
fn ping_request_times_out() {
    let mut table = RoutingTable::new(id(1), vec![]);
    let mut p = PingRequest::new(&id(1), &id(2), &ROUTER, 1_000);
    p.prune(11_000, &mut table);
    assert!(!p.done);
    p.prune(11_001, &mut table);
    assert!(p.done);
    assert!(p.invoke_sent(TxnId(1), false));
}

#[test]
fn uniform_node_id_range() {
    let u = UniformNodeId::new(&id(0x10), &id(0x20));
    assert!(u.accepts(&id(0x10)));
    assert!(u.accepts(&id(0x1f)));
    assert!(!u.accepts(&id(0x20)));
    assert!(!u.accepts(&id(0x0f)));
    let ui = UniformNodeId::new_inclusive(&id(0x10), &id(0x20));
    assert!(ui.accepts(&id(0x20)));
    let from_zero = UniformNodeId::new(&NodeId::new(), &id(0x20));
    assert!(from_zero.accepts(&NodeId::new()));
    for _ in 0..100 {
        if let Some(x) = u.sample_once() {
            assert!(u.accepts(&x));
        }
    }
}

#[test]
fn unmap_v4_addresses() {
    let v4 = SockAddr::V4(0x0102_0304, 80);
    assert_eq!(v4, unmap_ipv4(to_ipv6(v4)));
    assert_eq!(SockAddr::V4(1, 5), unmap_ipv4(SockAddr::V6(1, 5)));
    let v6 = SockAddr::V6(0x2001_0db8_0000_0000_0000_0000_0000_0001, 5);
    assert_eq!(v6, unmap_ipv4(v6));
    assert_eq!(v4, unmap_ipv4(v4));
}

#[test]
fn dht_request_dispatches_to_its_kind() {
    let own = id(1);
    let mut table = RoutingTable::new(own, vec![ROUTER]);
    let peer = SockAddr::V4(0x0102_0304, 999);

    let mut ping = DhtRequest::new_ping(&own, &id(0x80), &peer, 50_000);
    if let DhtRequest::Ping(p) = &mut ping {
        assert!(!p.invoke_sent(TxnId(9), true));
    } else {
        panic!("a ping request is a ping");
    }
    let right = Response { txn_id: TxnId(9), id: id(0x80), body: b"de".to_vec() };
    let (handled, peers) = ping.handle_reply(&right, &peer, &mut table);
    assert!(handled);
    assert!(peers.is_empty());
    assert_eq!(1, table.len());

    let mut get = DhtRequest::new_get_peers(&id(0x22), &own, &table);
    let other = Response { txn_id: TxnId(77), id: id(0x80), body: b"de".to_vec() };
    let (handled, peers) = get.handle_reply(&other, &peer, &mut table);
    assert!(!handled);
    assert!(peers.is_empty());

    let mut boot = DhtRequest::new_bootstrap(&own, &own, &table);
    boot.prune(1_000_000, &mut table);
    assert!(matches!(boot, DhtRequest::Bootstrap(_)));
    let announce = DhtRequest::new_announce(&id(0x22), &own, &table);
    assert!(matches!(announce, DhtRequest::Announce(_)));
}

#[test]
fn lookup_reply_adds_ipv6_nodes() {
    let own = id(0x11);
    let mut table = RoutingTable::new(own, vec![ROUTER]);
    let mut t = GetPeersTraversal::new(&id(0x22), &own, &table);
    let mut cur = t.lookup.invoke_start();
    assert_eq!(InvokeStep::Query(0), t.lookup.invoke_next(&mut cur));
    t.lookup.invoke_sent(&mut cur, 0, TxnId(4), true, 0);

    let mut body = b"d2:id20:".to_vec();
    body.extend_from_slice(&[0x44; 20]);
    body.extend_from_slice(b"6:nodes638:");
    body.extend_from_slice(&[0x45; 20]);
    body.extend_from_slice(&[0x20, 0x01, 0x0d, 0xb8, 0, 0, 0, 0, 0, 0, 0, 0, 0, 0, 0, 1]);
    body.extend_from_slice(&[0x1a, 0xe1]);
    body.extend_from_slice(b"e");
    let resp = Response { txn_id: TxnId(4), id: id(0x44), body };

    let router = to_ipv6(ROUTER);
    assert!(t.handle_reply(&resp, &router, &mut table));
    let v6 = SockAddr::V6(0x2001_0db8_0000_0000_0000_0000_0000_0001, 6881);
    assert!(t.lookup.nodes.iter().any(|n| n.id == id(0x45) && n.addr == v6));
    assert_eq!(1, table.len());
}

#[test]
fn reply_from_an_unknown_address_still_belongs_to_the_lookup() {
    let own = id(0x11);
    let mut table = RoutingTable::new(own, vec![ROUTER]);
    let mut t = GetPeersTraversal::new(&id(0x22), &own, &table);
    let mut cur = t.lookup.invoke_start();
    assert_eq!(InvokeStep::Query(0), t.lookup.invoke_next(&mut cur));
    t.lookup.invoke_sent(&mut cur, 0, TxnId(5), true, 0);
    let resp = Response { txn_id: TxnId(5), id: id(0x44), body: b"de".to_vec() };
    let stranger = SockAddr::V4(0x0909_0909, 9);
    assert!(t.handle_reply(&resp, &stranger, &mut table));
    assert!(t.lookup.txns.is_empty());
    assert_eq!(1, t.lookup.nodes.len());
}

#[test]
fn pruning_drops_queries_to_nodes_that_left_the_table() {
    let own = id(0x11);
    let mut with_node = RoutingTable::new(own, vec![]);
    let peer = SockAddr::V4(0x0102_0304, 999);
    assert!(with_node.add_contact(&ContactRef { id: &id(0x55), addr: peer }));
    let mut lookup = Lookup::new(&id(0x22), &own, &with_node, false);
    let mut cur = lookup.invoke_start();
    assert_eq!(InvokeStep::Query(0), lookup.invoke_next(&mut cur));
    lookup.invoke_sent(&mut cur, 0, TxnId(6), true, 1_000);

    // Not yet timed out: the query stays while its node is in the table.
    lookup.prune(1_500, &mut with_node);
    assert!(!lookup.txns.is_empty());

    let mut without = RoutingTable::new(own, vec![]);
    lookup.prune(1_500, &mut without);
    assert!(lookup.txns.is_empty());
    assert_eq!(FAILED, lookup.nodes[0].status & FAILED);
}

#[test]
fn parser_refuses_what_would_overflow_or_nest_too_deep() {
    assert!(is_parser_safe(b"d1:ai1ee"));
    let overflow = b"d18446744073709551000:ae";
    assert!(!is_parser_safe(overflow));
    assert!(Msg::decode(overflow).is_err());
    let deep = vec![b'l'; 100_000];
    assert!(is_parser_safe(&deep));
    assert!(Msg::decode(&deep).is_err());
}
