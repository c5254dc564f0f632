use btrs::dht::bucket::is_stale;
use btrs::dht::contact::{ContactRef, SockAddr};
use btrs::dht::id::NodeId;
use btrs::dht::table::RoutingTable;

#[test]
fn basic() {
    let mut rt = RoutingTable::new(NodeId::all(0), vec![]);
    assert_eq!(rt.len(), 0);
    assert_eq!(rt.len_extra(), 0);
    assert_eq!(rt.buckets.len(), 1);

    let addr = SockAddr::V4(0, 100);

    // Add one contact
    assert!(rt.add_contact(&ContactRef { addr, id: &NodeId::all(1) }));
    assert_eq!(rt.len(), 1);
    assert_eq!(rt.len_extra(), 0);
    assert_eq!(rt.buckets.len(), 1);

    // Add the same contact again - Should add but size shouldn't change
    assert!(rt.add_contact(&ContactRef { addr, id: &NodeId::all(1) }));
    assert_eq!(rt.len(), 1);
    assert_eq!(rt.len_extra(), 0);
    assert_eq!(rt.buckets.len(), 1);

    // Add 7 more contacts, one bucket should be full now
    for i in 2..9 {
        assert!(rt.add_contact(&ContactRef { addr, id: &NodeId::all(i) }));
        assert_eq!(rt.len(), i as usize);
        assert_eq!(rt.len_extra(), 0);
        assert_eq!(rt.buckets.len(), 1);
    }

    // Add 1 more contacts - splits the bucket
    assert!(rt.add_contact(&ContactRef { addr, id: &NodeId::all(9) }));
    assert_eq!(rt.len(), 9);
    assert_eq!(rt.len_extra(), 0);
    assert_eq!(rt.buckets.len(), 6);
    assert_eq!(rt.buckets[4].live.len(), 2);
    assert_eq!(rt.buckets[5].live.len(), 7);

    // Add 6 more contacts - fill up bucket at index 4
    for i in 0..6 {
        let mut n = NodeId::all(9);
        n.0[19] = i as u8;
        assert!(rt.add_contact(&ContactRef { addr, id: &n }));
        assert_eq!(rt.len(), 10 + i);
        assert_eq!(rt.len_extra(), 0);
        assert_eq!(rt.buckets.len(), 6);
    }
    assert_eq!(rt.buckets[4].live.len(), 8);
    assert_eq!(rt.buckets[5].live.len(), 7);

    // Add 1 more contacts - goes into bucket index 4 extras
    let mut n = NodeId::all(9);
    n.0[19] = 6;
    assert!(rt.add_contact(&ContactRef { addr, id: &n }));
    assert_eq!(rt.len(), 15);
    assert_eq!(rt.len_extra(), 1);
    assert_eq!(rt.buckets.len(), 6);
    assert_eq!(rt.buckets[4].live.len(), 8);
    assert_eq!(rt.buckets[4].extra.len(), 1);
    assert_eq!(rt.buckets[5].live.len(), 7);
}

#[test]
fn test_closest() {
    let mut table = RoutingTable::new(NodeId::all(0), vec![]);
    let addr = SockAddr::V4(0, 100);

    fn node(idx: usize) -> NodeId {
        let mut buf = [0; 20];
        buf[idx] = 1;
        NodeId(buf)
    }

    for i in 0..20 {
        let added = table.add_contact(&ContactRef { id: &node(i), addr });
        assert!(added, "Adding contact failed at {}", i);
    }

    let mut closest = Vec::with_capacity(20);
    table.find_closest(&NodeId::all(1), &mut closest, 20);

    let mut closest_iter = closest.into_iter();
    for i in 0..20 {
        assert_eq!(closest_iter.next().unwrap().id, &node(i));
    }

    assert!(closest_iter.next().is_none());
}

#[test]
fn own_id_and_routers_are_refused() {
    let router = SockAddr::V4(0x0a00_0001, 6881);
    let mut table = RoutingTable::new(NodeId::all(3), vec![router]);
    assert!(!table.add_contact(&ContactRef { id: &NodeId::all(3), addr: SockAddr::V4(1, 1) }));
    assert_eq!(0, table.len());
    assert!(table.find_contact(&NodeId::all(3)).is_none());
    assert!(table.add_contact(&ContactRef { id: &NodeId::all(4), addr: SockAddr::V4(1, 1) }));
    assert!(table.find_contact(&NodeId::all(4)).is_some());
}

#[test]
fn buckets_go_stale_after_fifteen_minutes() {
    assert!(!is_stale(15 * 60 * 1000));
    assert!(is_stale(15 * 60 * 1000 + 1));
}
