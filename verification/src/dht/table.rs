use crate::clock::now;
use crate::dht::bucket::{answering, answers_for, law_answering_not_failed, moves, stays, xlz_of, Bucket, BucketResult};
use crate::dht::contact::{spec_to_ipv6, to_ipv6, Contact, ContactRef, SockAddr};
use crate::dht::id::{seq_lt, seq_lz, seq_xor, NodeId};
use vstd::prelude::*;

verus! {

broadcast use vstd::seq_lib::group_filter_ensures;

/// The bucket that an id belongs to in a table of `count` buckets: the
/// number of leading zero bits of its distance from our own id, the last
/// bucket holding all the ids closer than that.
pub open spec fn bucket_index(own: Seq<u8>, count: int, id: Seq<u8>) -> int {
    if (xlz_of(own, id) as int) < count - 1 {
        xlz_of(own, id) as int
    } else {
        count - 1
    }
}

/// `s` holds a contact with this id and address.
pub open spec fn seq_has(s: Seq<Contact>, id: Seq<u8>, addr: SockAddr) -> bool {
    exists|j: int| 0 <= j < s.len() && (#[trigger] s[j]).id@ == id && s[j].addr == addr
}

/// `s` holds a contact with this id.
pub open spec fn seq_has_id(s: Seq<Contact>, id: Seq<u8>) -> bool {
    exists|j: int| 0 <= j < s.len() && (#[trigger] s[j]).id@ == id
}

/// The bucket holds (live or as a replacement) a contact with this id and address.
pub open spec fn bucket_has(b: Bucket, id: Seq<u8>, addr: SockAddr) -> bool {
    seq_has(b.live@, id, addr) || seq_has(b.extra@, id, addr)
}

/// The bucket holds a contact with this id.
pub open spec fn bucket_has_id(b: Bucket, id: Seq<u8>) -> bool {
    seq_has_id(b.live@, id) || seq_has_id(b.extra@, id)
}

/// Every contact of `s` belongs in bucket `i` and is not our own id.
pub open spec fn placed(s: Seq<Contact>, own: Seq<u8>, count: int, i: int) -> bool {
    forall|j: int|
        0 <= j < s.len() ==> bucket_index(own, count, (#[trigger] s[j]).id@) == i && s[j].id@ != own
}

/// The ids of a sequence of contacts.
pub open spec fn ids(s: Seq<Contact>) -> Seq<Seq<u8>> {
    s.map_values(|c: Contact| c.id@)
}

/// The ids of a bucket, live ones first.
pub open spec fn bucket_ids(b: Bucket) -> Seq<Seq<u8>> {
    ids(b.live@) + ids(b.extra@)
}

/// No id occurs twice in the bucket, live or extra.
pub open spec fn distinct_ids(b: Bucket) -> bool {
    bucket_ids(b).no_duplicates()
}

/// The invariant of a bucket at index `i` of a table of `count` buckets.
pub open spec fn bucket_ok(b: Bucket, own: Seq<u8>, count: int, i: int) -> bool {
    &&& b.live@.len() <= 8
    &&& b.extra@.len() <= 8
    &&& placed(b.live@, own, count, i)
    &&& placed(b.extra@, own, count, i)
    &&& distinct_ids(b)
}

/// No address occurs twice.
pub open spec fn no_dup_addrs(s: Seq<SockAddr>) -> bool {
    forall|j: int, k: int| 0 <= j < s.len() && 0 <= k < s.len() && j != k ==> s[j] != s[k]
}

/// All ids of a bucket whose contacts are full and answering: no room for
/// another contact.
pub open spec fn bucket_full(b: Bucket) -> bool {
    &&& b.live@.len() == 8
    &&& forall|j: int| 0 <= j < b.live@.len() ==> (#[trigger] b.live@[j]).spec_fail_count() == 0
    &&& b.extra@.len() == 8
    &&& forall|j: int| 0 <= j < b.extra@.len() ==> (#[trigger] b.extra@[j]).timeout_count is Some
}

/// Kademlia routing table: contacts sorted into buckets by the number of
/// leading zero bits of their distance from our own id.
#[derive(Debug)]
pub struct RoutingTable {
    pub own_id: NodeId,
    pub buckets: Vec<Bucket>,
    pub router_nodes: Vec<SockAddr>,
}

/// What a stale bucket asks of the DHT: a ping of one of its nodes, or a
/// lookup of a random id in its range.
#[derive(Debug, Clone, Copy)]
pub enum ClientRequest {
    Ping { id: NodeId, addr: SockAddr },
    Bootstrap { target: NodeId },
}

/// What a refresh of table `t` may ask for: a ping of the most failed
/// contact of a full bucket, or a lookup of an id with at least as many
/// leading zeros as the index of a bucket that is not full and not empty.
pub open spec fn refresh_pick(t: RoutingTable, r: Option<ClientRequest>) -> bool {
    &&& (r matches Some(ClientRequest::Ping { id, addr }) ==> exists|b: int|
                0 <= b < t.buckets@.len() && #[trigger] t.buckets@[b].live@.len() >= 8
                    && exists|k: int|
                    0 <= k < (t.buckets@[b].live@ + t.buckets@[b].extra@).len()
                        && (t.buckets@[b].live@ + t.buckets@[b].extra@)[k].id == id
                        && (t.buckets@[b].live@ + t.buckets@[b].extra@)[k].addr == addr
                        && forall|j: int|
                        0 <= j < (t.buckets@[b].live@ + t.buckets@[b].extra@).len()
                            ==> (#[trigger] (t.buckets@[b].live@
                            + t.buckets@[b].extra@)[j]).spec_fail_count() <= (
                        t.buckets@[b].live@ + t.buckets@[b].extra@)[k].spec_fail_count())
    &&& (r matches Some(ClientRequest::Bootstrap { target }) ==> exists|b: int|
                0 <= b < t.buckets@.len() && #[trigger] t.buckets@[b].live@.len() < 8
                    && t.buckets@[b].live@.len() + t.buckets@[b].extra@.len() > 0
                    && seq_lz(target@) >= b)
}

/// The tables hold the same buckets, own id and router nodes.
pub open spec fn same_table(a: RoutingTable, b: RoutingTable) -> bool {
    &&& a.own_id == b.own_id
    &&& a.buckets@ == b.buckets@
    &&& a.router_nodes@ == b.router_nodes@
}

/// A contact the table takes in anew: not at a router's address, not of
/// our own id, and of an id the table does not hold.
pub open spec fn fresh_contact(t: RoutingTable, id: Seq<u8>, addr: SockAddr) -> bool {
    &&& !t.router_nodes@.contains(addr)
    &&& id != t.own_id@
    &&& !t.has_id(id)
}

/// Whether a contact of this id can only be added after the last bucket
/// splits: it belongs in the last bucket, whose live list is full, and
/// there are fewer than 159 buckets.
pub open spec fn must_split(t: RoutingTable, id: Seq<u8>) -> bool {
    let k = t.spec_bucket_of(id);
    &&& k == t.buckets@.len() - 1
    &&& t.buckets@.len() < 159
    &&& t.buckets@[k].live@.len() >= 8
}

/// `t1` is `t0` with its last bucket split by the next bit: the contacts
/// whose distance from our own id has more leading zeros than the last
/// index move, in order, to a new last bucket; the others stay, in order.
pub open spec fn split_of(t0: RoutingTable, t1: RoutingTable) -> bool {
    let k = t0.buckets@.len() - 1;
    let own = t0.own_id@;
    &&& t1.own_id == t0.own_id
    &&& t1.router_nodes@ == t0.router_nodes@
    &&& t1.buckets@.len() == t0.buckets@.len() + 1
    &&& forall|i: int| 0 <= i < k ==> #[trigger] t1.buckets@[i] == t0.buckets@[i]
    &&& t1.buckets@[k].live@ == t0.buckets@[k].live@.filter(stays(own, k))
    &&& t1.buckets@[k].extra@ == t0.buckets@[k].extra@.filter(stays(own, k))
    &&& t1.buckets@[k + 1].live@ == t0.buckets@[k].live@.filter(moves(own, k))
    &&& t1.buckets@[k + 1].extra@ == t0.buckets@[k].extra@.filter(moves(own, k))
}

/// What placing a fresh contact, whose bucket need not split, does: with
/// room in the bucket's live list the contact is appended to it, nothing
/// else changing; else the live lists keep their lengths, and the contact
/// is held when `r` says it was taken (among the replacement candidates,
/// or in the place of a live contact that had timed out).
pub open spec fn placed_fresh(t0: RoutingTable, t1: RoutingTable, id: Seq<u8>, addr: SockAddr, r: bool) -> bool {
    let k = t0.spec_bucket_of(id);
    let b0 = t0.buckets@[k];
    let b1 = t1.buckets@[k];
    &&& t1.own_id == t0.own_id
    &&& t1.router_nodes@ == t0.router_nodes@
    &&& t1.buckets@.len() == t0.buckets@.len()
    &&& forall|i: int| 0 <= i < t0.buckets@.len() && i != k ==> #[trigger] t1.buckets@[i] == t0.buckets@[i]
    &&& b0.live@.len() < 8 ==> r && b1.live@.len() == b0.live@.len() + 1 && b1.live@.drop_last() == b0.live@
        && b1.live@.last().id@ == id && b1.live@.last().addr == addr && b1.extra@ == b0.extra@
    &&& b0.live@.len() >= 8 ==> b1.live@.len() == b0.live@.len() && (r ==> t1.has(id, addr))
}

/// The bucket this id belongs to holds the contact as a replacement
/// candidate.
pub open spec fn held_extra(t: RoutingTable, id: Seq<u8>, addr: SockAddr) -> bool {
    seq_has(t.buckets@[t.spec_bucket_of(id)].extra@, id, addr)
}

/// `t1` is `t0` with the replacement candidate of this id taken out of its
/// bucket's extra list and appended to that bucket's live list, nothing
/// else changing.
pub open spec fn promoted(t0: RoutingTable, t1: RoutingTable, id: Seq<u8>, addr: SockAddr) -> bool {
    let k = t0.spec_bucket_of(id);
    let b0 = t0.buckets@[k];
    let b1 = t1.buckets@[k];
    &&& t1.own_id == t0.own_id
    &&& t1.router_nodes@ == t0.router_nodes@
    &&& t1.buckets@.len() == t0.buckets@.len()
    &&& forall|i: int| 0 <= i < t0.buckets@.len() && i != k ==> #[trigger] t1.buckets@[i] == t0.buckets@[i]
    &&& b1.live@.len() == b0.live@.len() + 1 && b1.live@.drop_last() == b0.live@
    &&& b1.live@.last().id@ == id && b1.live@.last().addr == addr
    &&& exists|j: int| 0 <= j < b0.extra@.len() && (#[trigger] b0.extra@[j]).id@ == id
        && b1.extra@ == b0.extra@.remove(j)
}

/// `t1` is `t0` without its last bucket when that has no live contact,
/// else `t0`.
pub open spec fn dropped_empty_last(t0: RoutingTable, t1: RoutingTable) -> bool {
    &&& t1.own_id == t0.own_id
    &&& t1.router_nodes@ == t0.router_nodes@
    &&& t0.buckets@.len() >= 1
    &&& if t0.buckets@.last().live@.len() == 0 {
        t1.buckets@ == t0.buckets@.drop_last()
    } else {
        t1.buckets@ == t0.buckets@
    }
}

/// `ts` are the tables a contact of id `id` goes through before it is
/// placed: each but the last must split its last bucket for it, and is
/// followed by that split; the last need not split.
pub open spec fn split_chain(ts: Seq<RoutingTable>, id: Seq<u8>) -> bool {
    &&& ts.len() >= 1
    &&& forall|j: int| 0 <= j < ts.len() - 1 ==> must_split(#[trigger] ts[j], id) && split_of(ts[j], ts[j + 1])
    &&& !must_split(ts.last(), id)
}

/// What adding a fresh contact does to table `t0`, giving `t1` and the
/// answer `r`: the last bucket splits for as long as the contact must wait
/// for it, then the contact is placed; after any split, a last bucket left
/// without live contacts is dropped.
pub open spec fn added_fresh(t0: RoutingTable, t1: RoutingTable, id: Seq<u8>, addr: SockAddr, r: bool) -> bool {
    exists|ts: Seq<RoutingTable>, tp: RoutingTable|
        #![trigger split_chain(ts, id), placed_fresh(ts.last(), tp, id, addr, r)]
        split_chain(ts, id) && same_table(ts[0], t0) && placed_fresh(ts.last(), tp, id, addr, r)
            && (if ts.len() == 1 {
            same_table(t1, tp)
        } else {
            dropped_empty_last(tp, t1)
        })
}

impl RoutingTable {
    /// The table invariant: between one and 159 buckets, each bucket holding
    /// at most eight live and eight extra contacts, every contact in the
    /// bucket its distance from our own id asks for, no contact with our own
    /// id, no id twice, no router address twice.
    pub open spec fn wf(&self) -> bool {
        &&& 1 <= self.buckets@.len() <= 159
        &&& forall|i: int|
            0 <= i < self.buckets@.len() ==> bucket_ok(
                #[trigger] self.buckets@[i],
                self.own_id@,
                self.buckets@.len() as int,
                i,
            )
        &&& no_dup_addrs(self.router_nodes@)
    }

    /// The table holds a contact with this id and address.
    pub open spec fn has(&self, id: Seq<u8>, addr: SockAddr) -> bool {
        exists|i: int| 0 <= i < self.buckets@.len() && bucket_has(#[trigger] self.buckets@[i], id, addr)
    }

    /// The table holds a contact with this id.
    pub open spec fn has_id(&self, id: Seq<u8>) -> bool {
        exists|i: int| 0 <= i < self.buckets@.len() && bucket_has_id(#[trigger] self.buckets@[i], id)
    }

    /// The bucket an id belongs to in this table.
    pub open spec fn spec_bucket_of(&self, id: Seq<u8>) -> int {
        bucket_index(self.own_id@, self.buckets@.len() as int, id)
    }

    /// A contact of the table is in the bucket its id belongs to.
    proof fn lemma_has_in_own_bucket(&self, id: Seq<u8>, addr: SockAddr)
        requires
            self.wf(),
        ensures
            self.has(id, addr) <==> bucket_has(self.buckets@[self.spec_bucket_of(id)], id, addr),
            self.has_id(id) <==> bucket_has_id(self.buckets@[self.spec_bucket_of(id)], id),
    {
        let k = self.spec_bucket_of(id);
        assert(0 <= k < self.buckets@.len());
        if self.has(id, addr) {
            let i = choose|i: int|
                0 <= i < self.buckets@.len() && bucket_has(#[trigger] self.buckets@[i], id, addr);
            let b = self.buckets@[i];
            assert(bucket_ok(b, self.own_id@, self.buckets@.len() as int, i));
            if seq_has(b.live@, id, addr) {
                let j = choose|j: int|
                    0 <= j < b.live@.len() && (#[trigger] b.live@[j]).id@ == id && b.live@[j].addr
                        == addr;
                assert(bucket_index(self.own_id@, self.buckets@.len() as int, b.live@[j].id@) == i);
            } else {
                let j = choose|j: int|
                    0 <= j < b.extra@.len() && (#[trigger] b.extra@[j]).id@ == id
                        && b.extra@[j].addr == addr;
                assert(bucket_index(self.own_id@, self.buckets@.len() as int, b.extra@[j].id@)
                    == i);
            }
        }
        if self.has_id(id) {
            let i = choose|i: int|
                0 <= i < self.buckets@.len() && bucket_has_id(#[trigger] self.buckets@[i], id);
            let b = self.buckets@[i];
            assert(bucket_ok(b, self.own_id@, self.buckets@.len() as int, i));
            if seq_has_id(b.live@, id) {
                let j = choose|j: int| 0 <= j < b.live@.len() && (#[trigger] b.live@[j]).id@ == id;
                assert(bucket_index(self.own_id@, self.buckets@.len() as int, b.live@[j].id@) == i);
            } else {
                let j = choose|j: int|
                    0 <= j < b.extra@.len() && (#[trigger] b.extra@[j]).id@ == id;
                assert(bucket_index(self.own_id@, self.buckets@.len() as int, b.extra@[j].id@)
                    == i);
            }
        }
    }
}



/// Every contact of `s` is one of `old`, or has this id and address.
pub open spec fn from_old_or(old: Bucket, s: Seq<Contact>, id: Seq<u8>, addr: SockAddr) -> bool {
    forall|j: int|
        0 <= j < s.len() ==> bucket_has(old, (#[trigger] s[j]).id@, s[j].addr) || (s[j].id@ == id
            && s[j].addr == addr)
}

/// The invariant of a bucket that does not depend on its place.
pub open spec fn bucket_shape(b: Bucket) -> bool {
    b.live@.len() <= 8 && b.extra@.len() <= 8 && distinct_ids(b)
}

proof fn lemma_ids_push(s: Seq<Contact>, c: Contact)
    ensures
        ids(s.push(c)) == ids(s).push(c.id@),
{
    assert(ids(s.push(c)) =~= ids(s).push(c.id@));
}

proof fn lemma_ids_update(s: Seq<Contact>, j: int, c: Contact)
    requires
        0 <= j < s.len(),
    ensures
        ids(s.update(j, c)) == ids(s).update(j, c.id@),
{
    assert(ids(s.update(j, c)) =~= ids(s).update(j, c.id@));
}

proof fn lemma_ids_remove(s: Seq<Contact>, j: int)
    requires
        0 <= j < s.len(),
    ensures
        ids(s.remove(j)) == ids(s).remove(j),
{
    assert(ids(s.remove(j)) =~= ids(s).remove(j));
}

proof fn lemma_nodup_push_left(a: Seq<Seq<u8>>, e: Seq<Seq<u8>>, x: Seq<u8>)
    requires
        (a + e).no_duplicates(),
        !(a + e).contains(x),
    ensures
        (a.push(x) + e).no_duplicates(),
{
    let s = a + e;
    let t = a.push(x) + e;
    assert forall|i: int, j: int| 0 <= i < t.len() && 0 <= j < t.len() && i != j implies t[i] != t[j] by {
        let si = if i < a.len() { i } else { i - 1 };
        let sj = if j < a.len() { j } else { j - 1 };
        if i == a.len() {
            assert(t[j] == s[sj]);
        } else if j == a.len() {
            assert(t[i] == s[si]);
        } else {
            assert(t[i] == s[si]);
            assert(t[j] == s[sj]);
        }
    }
}

proof fn lemma_nodup_push_right(a: Seq<Seq<u8>>, e: Seq<Seq<u8>>, x: Seq<u8>)
    requires
        (a + e).no_duplicates(),
        !(a + e).contains(x),
    ensures
        (a + e.push(x)).no_duplicates(),
{
    assert((a + e.push(x)) =~= (a + e).push(x));
    let t = (a + e).push(x);
    assert forall|i: int, j: int| 0 <= i < t.len() && 0 <= j < t.len() && i != j implies t[i] != t[j] by {
        if i == (a + e).len() {
            assert(t[j] == (a + e)[j]);
        } else if j == (a + e).len() {
            assert(t[i] == (a + e)[i]);
        }
    }
}

proof fn lemma_nodup_remove_right(a: Seq<Seq<u8>>, e: Seq<Seq<u8>>, k: int)
    requires
        (a + e).no_duplicates(),
        0 <= k < e.len(),
    ensures
        (a + e.remove(k)).no_duplicates(),
        forall|x: Seq<u8>| (a + e.remove(k)).contains(x) ==> (a + e).contains(x),
{
    let s = a + e;
    let t = a + e.remove(k);
    assert forall|i: int| 0 <= i < t.len() implies t[i] == s[if i < a.len() + k { i } else { i + 1 }] by {}
    assert forall|x: Seq<u8>| t.contains(x) implies s.contains(x) by {
        let i = choose|i: int| 0 <= i < t.len() && t[i] == x;
        assert(s[if i < a.len() + k { i } else { i + 1 }] == x);
    }
}

proof fn lemma_nodup_update_left(a: Seq<Seq<u8>>, e: Seq<Seq<u8>>, j: int, x: Seq<u8>)
    requires
        (a + e).no_duplicates(),
        !(a + e).contains(x),
        0 <= j < a.len(),
    ensures
        (a.update(j, x) + e).no_duplicates(),
{
    let s = a + e;
    let t = a.update(j, x) + e;
    assert forall|p: int, q: int| 0 <= p < t.len() && 0 <= q < t.len() && p != q implies t[p] != t[q] by {
        if p == j {
            assert(t[q] == s[q]);
        } else if q == j {
            assert(t[p] == s[p]);
        } else {
            assert(t[p] == s[p]);
            assert(t[q] == s[q]);
        }
    }
}

/// The contact at live position `j` is the only one of its id in the bucket.
proof fn lemma_unique_live(b: Bucket, j: int)
    requires
        distinct_ids(b),
        0 <= j < b.live@.len(),
    ensures
        forall|k: int| 0 <= k < b.live@.len() && k != j ==> (#[trigger] b.live@[k]).id@ != b.live@[j].id@,
        forall|k: int| 0 <= k < b.extra@.len() ==> (#[trigger] b.extra@[k]).id@ != b.live@[j].id@,
{
    let s = bucket_ids(b);
    assert forall|k: int| 0 <= k < b.live@.len() && k != j implies (#[trigger] b.live@[k]).id@ != b.live@[j].id@ by {
        assert(s[k] == b.live@[k].id@);
        assert(s[j] == b.live@[j].id@);
    }
    assert forall|k: int| 0 <= k < b.extra@.len() implies (#[trigger] b.extra@[k]).id@ != b.live@[j].id@ by {
        assert(s[b.live@.len() + k] == b.extra@[k].id@);
        assert(s[j] == b.live@[j].id@);
    }
}

/// The contact at extra position `j` is the only one of its id in the bucket.
proof fn lemma_unique_extra(b: Bucket, j: int)
    requires
        distinct_ids(b),
        0 <= j < b.extra@.len(),
    ensures
        forall|k: int| 0 <= k < b.extra@.len() && k != j ==> (#[trigger] b.extra@[k]).id@ != b.extra@[j].id@,
        forall|k: int| 0 <= k < b.live@.len() ==> (#[trigger] b.live@[k]).id@ != b.extra@[j].id@,
{
    let s = bucket_ids(b);
    let n = b.live@.len();
    assert forall|k: int| 0 <= k < b.extra@.len() && k != j implies (#[trigger] b.extra@[k]).id@ != b.extra@[j].id@ by {
        assert(s[n + k] == b.extra@[k].id@);
        assert(s[n + j] == b.extra@[j].id@);
    }
    assert forall|k: int| 0 <= k < b.live@.len() implies (#[trigger] b.live@[k]).id@ != b.extra@[j].id@ by {
        assert(s[k] == b.live@[k].id@);
        assert(s[n + j] == b.extra@[j].id@);
    }
}

/// An id missing from both lists is missing from the bucket's ids.
proof fn lemma_not_in_ids(b: Bucket, id: Seq<u8>)
    requires
        !seq_has_id(b.live@, id),
        !seq_has_id(b.extra@, id),
    ensures
        !bucket_ids(b).contains(id),
{
    let s = bucket_ids(b);
    if s.contains(id) {
        let i = choose|i: int| 0 <= i < s.len() && s[i] == id;
        if i < b.live@.len() {
            assert(b.live@[i].id@ == id);
        } else {
            assert(b.extra@[i - b.live@.len()].id@ == id);
        }
    }
}

/// The index of the contact of `s` with this id, if any.
fn find_id(s: &Vec<Contact>, id: &NodeId) -> (r: Option<usize>)
    ensures
        r matches Some(j) ==> j < s@.len() && s@[j as int].id@ == id@,
        r is None ==> !seq_has_id(s@, id@),
{
    let mut j: usize = 0;
    while j < s.len()
        invariant
            j <= s@.len(),
            forall|k: int| 0 <= k < j ==> (#[trigger] s@[k]).id@ != id@,
        decreases s@.len() - j,
    {
        if s[j].id.same(id) {
            return Some(j);
        }
        j = j + 1;
    }
    None
}

/// The index of the first contact of `s` that was never pinged, if any.
fn find_unpinged(s: &Vec<Contact>) -> (r: Option<usize>)
    ensures
        r matches Some(j) ==> j < s@.len() && s@[j as int].timeout_count is None,
        r is None ==> forall|k: int| 0 <= k < s@.len() ==> (#[trigger] s@[k]).timeout_count is Some,
{
    let mut j: usize = 0;
    while j < s.len()
        invariant
            j <= s@.len(),
            forall|k: int| 0 <= k < j ==> (#[trigger] s@[k]).timeout_count is Some,
        decreases s@.len() - j,
    {
        if !s[j].is_pinged() {
            return Some(j);
        }
        j = j + 1;
    }
    None
}

/// The bucket after a successful placement: every contact is the new one
/// or one of `b1`, whose contacts all come from `b0`, and the new one is in.
proof fn lemma_placed_new(b0: Bucket, b1: Bucket, nb: Bucket, contact: Contact)
    requires
        forall|j: int|
            0 <= j < b1.live@.len() ==> bucket_has(b0, (#[trigger] b1.live@[j]).id@, b1.live@[j].addr),
        forall|j: int|
            0 <= j < b1.extra@.len() ==> bucket_has(b0, (#[trigger] b1.extra@[j]).id@, b1.extra@[j].addr),
        forall|j: int|
            0 <= j < nb.live@.len() ==> (#[trigger] nb.live@[j]) == contact || b1.live@.contains(nb.live@[j]) || b1.extra@.contains(nb.live@[j]),
        forall|j: int|
            0 <= j < nb.extra@.len() ==> (#[trigger] nb.extra@[j]) == contact || b1.live@.contains(nb.extra@[j]) || b1.extra@.contains(nb.extra@[j]),
        nb.live@.contains(contact) || nb.extra@.contains(contact),
    ensures
        from_old_or(b0, nb.live@, contact.id@, contact.addr),
        from_old_or(b0, nb.extra@, contact.id@, contact.addr),
        bucket_has(nb, contact.id@, contact.addr),
{
    assert forall|j: int| 0 <= j < nb.live@.len() implies bucket_has(b0, (#[trigger] nb.live@[j]).id@, nb.live@[j].addr) || (nb.live@[j].id@ == contact.id@ && nb.live@[j].addr == contact.addr) by {
        if nb.live@[j] != contact {
            if b1.live@.contains(nb.live@[j]) {
                let k = choose|k: int| 0 <= k < b1.live@.len() && b1.live@[k] == nb.live@[j];
                assert(bucket_has(b0, b1.live@[k].id@, b1.live@[k].addr));
            } else {
                let k = choose|k: int| 0 <= k < b1.extra@.len() && b1.extra@[k] == nb.live@[j];
                assert(bucket_has(b0, b1.extra@[k].id@, b1.extra@[k].addr));
            }
        }
    }
    assert forall|j: int| 0 <= j < nb.extra@.len() implies bucket_has(b0, (#[trigger] nb.extra@[j]).id@, nb.extra@[j].addr) || (nb.extra@[j].id@ == contact.id@ && nb.extra@[j].addr == contact.addr) by {
        if nb.extra@[j] != contact {
            if b1.live@.contains(nb.extra@[j]) {
                let k = choose|k: int| 0 <= k < b1.live@.len() && b1.live@[k] == nb.extra@[j];
                assert(bucket_has(b0, b1.live@[k].id@, b1.live@[k].addr));
            } else {
                let k = choose|k: int| 0 <= k < b1.extra@.len() && b1.extra@[k] == nb.extra@[j];
                assert(bucket_has(b0, b1.extra@[k].id@, b1.extra@[k].addr));
            }
        }
    }
    if nb.live@.contains(contact) {
        let k = choose|k: int| 0 <= k < nb.live@.len() && nb.live@[k] == contact;
        assert(seq_has(nb.live@, contact.id@, contact.addr));
    } else {
        let k = choose|k: int| 0 <= k < nb.extra@.len() && nb.extra@[k] == contact;
        assert(seq_has(nb.extra@, contact.id@, contact.addr));
    }
}

/// Whether the bucket holds this contact as a live contact that has timed
/// out or as a replacement candidate never pinged: one a newcomer may take
/// the place of.
pub open spec fn replaceable(b: Bucket, id: Seq<u8>, addr: SockAddr) -> bool {
    ||| exists|j: int|
        0 <= j < b.live@.len() && (#[trigger] b.live@[j]).id@ == id && b.live@[j].addr == addr
            && b.live@[j].spec_fail_count() > 0
    ||| exists|j: int|
        0 <= j < b.extra@.len() && (#[trigger] b.extra@[j]).id@ == id && b.extra@[j].addr == addr
            && b.extra@[j].timeout_count is None
}

/// Every contact of `b0` whose id is not `cid` is still in `b1`, but `g`
/// when it is some: a replaceable contact of `b0`.
pub open spec fn kept_but(b0: Bucket, b1: Bucket, cid: Seq<u8>, g: Option<(Seq<u8>, SockAddr)>) -> bool {
    &&& g matches Some(p) ==> replaceable(b0, p.0, p.1)
    &&& forall|id: Seq<u8>, addr: SockAddr|
        bucket_has(b0, id, addr) && id != cid && g != Some((id, addr)) ==> #[trigger] bucket_has(b1, id, addr)
    &&& forall|id: Seq<u8>, addr: SockAddr|
        seq_has(b0.live@, id, addr) && id != cid && g != Some((id, addr)) ==> #[trigger] seq_has(b1.live@, id, addr)
}

/// Places a contact in the bucket it belongs to: refreshes it if known,
/// adds it as live while there is room, or else (when the bucket cannot be
/// split) lets it take the place of a failed live node or of a never
/// pinged replacement candidate, or queues it as a replacement candidate.
fn insert_into(b: &mut Bucket, c: &ContactRef<'_>, can_split: bool) -> (r: BucketResult)
    requires
        bucket_shape(*old(b)),
    ensures
        bucket_shape(*final(b)),
        from_old_or(*old(b), final(b).live@, c.id@, c.addr),
        from_old_or(*old(b), final(b).extra@, c.id@, c.addr),
        r == BucketResult::Success ==> bucket_has(*final(b), c.id@, c.addr),
        r == BucketResult::Success ==> exists|g: Option<(Seq<u8>, SockAddr)>| #[trigger] kept_but(*old(b), *final(b), c.id@, g),
        r != BucketResult::Success ==> final(b).live@ == old(b).live@,
        r != BucketResult::Success ==> forall|j: int| 0 <= j < final(b).extra@.len() ==> old(b).extra@.contains(#[trigger] final(b).extra@[j]),
        bucket_has_id(*old(b), c.id@) && !bucket_has(*old(b), c.id@, c.addr) ==> *final(b) == *old(b),
        seq_has(old(b).live@, c.id@, c.addr) ==> r == BucketResult::Success && final(b).live@.len() == old(b).live@.len()
            && final(b).extra@ == old(b).extra@,
        r != BucketResult::Success ==> forall|id: Seq<u8>, addr: SockAddr|
            bucket_has(*old(b), id, addr) && id != c.id@ ==> #[trigger] bucket_has(*final(b), id, addr),
        r == BucketResult::Fail ==> forall|id: Seq<u8>, addr: SockAddr|
            bucket_has(*old(b), id, addr) ==> #[trigger] bucket_has(*final(b), id, addr),
        r == BucketResult::RequireSplit ==> can_split && final(b).live@.len() == 8,
        !bucket_has_id(*old(b), c.id@) && old(b).live@.len() < 8 ==> r == BucketResult::Success
            && final(b).live@.len() == old(b).live@.len() + 1 && final(b).live@.drop_last() == old(b).live@
            && final(b).live@.last().id@ == c.id@ && final(b).live@.last().addr == c.addr
            && final(b).extra@ == old(b).extra@,
        !bucket_has_id(*old(b), c.id@) && old(b).live@.len() >= 8 && can_split ==> r == BucketResult::RequireSplit
            && *final(b) == *old(b),
        seq_has(old(b).extra@, c.id@, c.addr) && old(b).live@.len() < 8 ==> r == BucketResult::Success
            && final(b).live@.len() == old(b).live@.len() + 1 && final(b).live@.drop_last() == old(b).live@
            && final(b).live@.last().id@ == c.id@ && final(b).live@.last().addr == c.addr
            && exists|j: int| 0 <= j < old(b).extra@.len() && (#[trigger] old(b).extra@[j]).id@ == c.id@
                && final(b).extra@ == old(b).extra@.remove(j),
        !bucket_has_id(*old(b), c.id@) && old(b).live@.len() >= 8 && !can_split ==> r != BucketResult::RequireSplit
            && final(b).live@.len() == old(b).live@.len(),
        final(b).live@.len() == 0 ==> r == BucketResult::Fail && bucket_has_id(*old(b), c.id@) && !bucket_has(*old(b), c.id@, c.addr),
        bucket_has_id(*old(b), c.id@) && !bucket_has(*old(b), c.id@, c.addr) ==> r
            == BucketResult::Fail,
        r == BucketResult::Fail ==> (bucket_has_id(*old(b), c.id@) && !bucket_has(
            *old(b),
            c.id@,
            c.addr,
        )) || bucket_full(*final(b)),
{
    let ghost b0 = *b;
    match find_id(&b.live, c.id) {
        Some(j) => {
            proof {
                lemma_unique_live(b0, j as int);
                assert(!seq_has(b0.extra@, c.id@, c.addr));
            }
            if b.live[j].addr != c.addr {
                proof {
                    assert(seq_has_id(b0.live@, c.id@));
                    assert forall|k: int| 0 <= k < b0.live@.len() implies bucket_has(b0, (#[trigger] b0.live@[k]).id@, b0.live@[k].addr) by {}
                    assert forall|k: int| 0 <= k < b0.extra@.len() implies bucket_has(b0, (#[trigger] b0.extra@[k]).id@, b0.extra@[k].addr) by {}
                }
                return BucketResult::Fail;
            }
            let mut e = b.live[j];
            e.timeout_count = Some(0);
            b.live.set(j, e);
            b.last_updated = now();
            proof {
                lemma_ids_update(b0.live@, j as int, e);
                assert(ids(b0.live@).update(j as int, e.id@) =~= ids(b0.live@));
                assert forall|k: int| 0 <= k < b.live@.len() implies bucket_has(b0, (#[trigger] b.live@[k]).id@, b.live@[k].addr) by {
                    assert(b0.live@[k].id@ == b.live@[k].id@ && b0.live@[k].addr == b.live@[k].addr);
                }
                assert forall|k: int| 0 <= k < b.extra@.len() implies bucket_has(b0, (#[trigger] b.extra@[k]).id@, b.extra@[k].addr) by {}
                assert(b.live@[j as int] == e);
                assert(e.id@ == c.id@ && e.addr == c.addr);
                assert(seq_has(b.live@, c.id@, c.addr));
                assert forall|id: Seq<u8>, addr: SockAddr| bucket_has(b0, id, addr) && id != c.id@ && None::<(Seq<u8>, SockAddr)> != Some((id, addr)) implies #[trigger] bucket_has(*b, id, addr) by {
                    if seq_has(b0.live@, id, addr) {
                        let k = choose|k: int| 0 <= k < b0.live@.len() && (#[trigger] b0.live@[k]).id@ == id && b0.live@[k].addr == addr;
                        assert(b.live@[k].id@ == id && b.live@[k].addr == addr);
                    } else {
                        let k = choose|k: int| 0 <= k < b0.extra@.len() && (#[trigger] b0.extra@[k]).id@ == id && b0.extra@[k].addr == addr;
                        assert(b.extra@[k] == b0.extra@[k]);
                    }
                }
                assert forall|id: Seq<u8>, addr: SockAddr| seq_has(b0.live@, id, addr) && id != c.id@ && None::<(Seq<u8>, SockAddr)> != Some((id, addr)) implies #[trigger] seq_has(b.live@, id, addr) by {
                    let k = choose|k: int| 0 <= k < b0.live@.len() && (#[trigger] b0.live@[k]).id@ == id && b0.live@[k].addr == addr;
                    assert(b.live@[k].id@ == id && b.live@[k].addr == addr);
                }
                assert(kept_but(b0, *b, c.id@, None));
            }
            return BucketResult::Success;
        },
        None => {},
    }
    let mut contact = c.as_owned();
    let ghost mut removed: int = -1;
    match find_id(&b.extra, c.id) {
        Some(k) => {
            proof {
                lemma_unique_extra(b0, k as int);
            }
            if b.extra[k].addr != c.addr {
                proof {
                    assert(seq_has_id(b0.extra@, c.id@));
                    assert forall|m: int| 0 <= m < b0.live@.len() implies bucket_has(b0, (#[trigger] b0.live@[m]).id@, b0.live@[m].addr) by {}
                    assert forall|m: int| 0 <= m < b0.extra@.len() implies bucket_has(b0, (#[trigger] b0.extra@[m]).id@, b0.extra@[m].addr) by {}
                }
                return BucketResult::Fail;
            }
            let mut e = b.extra.remove(k);
            e.timeout_count = Some(0);
            contact = e;
            proof {
                assert(b0.extra@[k as int].id@ == c.id@ && b.extra@ == b0.extra@.remove(k as int));
                removed = k as int;
                lemma_ids_remove(b0.extra@, k as int);
                lemma_nodup_remove_right(ids(b0.live@), ids(b0.extra@), k as int);
            }
        },
        None => {},
    }
    let ghost b1 = *b;
    proof {
        assert(contact.id@ == c.id@ && contact.addr == c.addr);
        // b1: b0 without the contact's id
        assert forall|j: int| 0 <= j < b1.extra@.len() implies (#[trigger] b1.extra@[j]) == b0.extra@[if removed >= 0 && j >= removed { j + 1 } else { j }] by {}
        assert forall|j: int| 0 <= j < b1.live@.len() implies bucket_has(b0, (#[trigger] b1.live@[j]).id@, b1.live@[j].addr) by {}
        assert forall|j: int| 0 <= j < b1.extra@.len() implies bucket_has(b0, (#[trigger] b1.extra@[j]).id@, b1.extra@[j].addr) by {
            let m = if removed >= 0 && j >= removed { j + 1 } else { j };
            assert(b0.extra@[m] == b1.extra@[j]);
        }
        assert(!seq_has_id(b1.extra@, c.id@)) by {
            if seq_has_id(b1.extra@, c.id@) {
                let j = choose|j: int| 0 <= j < b1.extra@.len() && (#[trigger] b1.extra@[j]).id@ == c.id@;
                let m = if removed >= 0 && j >= removed { j + 1 } else { j };
                assert(b0.extra@[m].id@ == c.id@);
                if removed >= 0 {
                    assert(m != removed);
                }
            }
        }
        assert forall|id: Seq<u8>, addr: SockAddr| bucket_has(b0, id, addr) && id != c.id@ implies #[trigger] bucket_has(b1, id, addr) by {
            if !seq_has(b0.live@, id, addr) {
                let k = choose|k: int| 0 <= k < b0.extra@.len() && (#[trigger] b0.extra@[k]).id@ == id && b0.extra@[k].addr == addr;
                if removed >= 0 {
                    assert(k != removed);
                    let j = if k < removed { k } else { k - 1 };
                    assert(b1.extra@[j] == b0.extra@[k]);
                } else {
                    assert(b1.extra@[k] == b0.extra@[k]);
                }
            }
        }
        lemma_not_in_ids(b1, c.id@);
        assert(distinct_ids(b1));
    }
    if b.live.len() < Bucket::MAX_LEN {
        b.live.push(contact);
        b.last_updated = now();
        proof {
            lemma_ids_push(b1.live@, contact);
            lemma_nodup_push_left(ids(b1.live@), ids(b1.extra@), contact.id@);
            assert(b.live@[b.live@.len() - 1] == contact);
            assert forall|j: int| 0 <= j < b.live@.len() implies (#[trigger] b.live@[j]) == contact || b1.live@.contains(b.live@[j]) || b1.extra@.contains(b.live@[j]) by {
                if j < b1.live@.len() {
                    assert(b1.live@[j] == b.live@[j]);
                }
            }
            assert forall|j: int| 0 <= j < b.extra@.len() implies (#[trigger] b.extra@[j]) == contact || b1.live@.contains(b.extra@[j]) || b1.extra@.contains(b.extra@[j]) by {
                assert(b1.extra@[j] == b.extra@[j]);
            }
            lemma_placed_new(b0, b1, *b, contact);
            assert forall|id: Seq<u8>, addr: SockAddr| bucket_has(b0, id, addr) && id != c.id@ && None::<(Seq<u8>, SockAddr)> != Some((id, addr)) implies #[trigger] bucket_has(*b, id, addr) by {
                assert(bucket_has(b1, id, addr));
                if seq_has(b1.live@, id, addr) {
                    let k = choose|k: int| 0 <= k < b1.live@.len() && (#[trigger] b1.live@[k]).id@ == id && b1.live@[k].addr == addr;
                    assert(b.live@[k] == b1.live@[k]);
                } else {
                    let k = choose|k: int| 0 <= k < b1.extra@.len() && (#[trigger] b1.extra@[k]).id@ == id && b1.extra@[k].addr == addr;
                    assert(b.extra@[k] == b1.extra@[k]);
                }
            }
            assert(b1.live@ == b0.live@);
            assert forall|id: Seq<u8>, addr: SockAddr| seq_has(b0.live@, id, addr) && id != c.id@ && None::<(Seq<u8>, SockAddr)> != Some((id, addr)) implies #[trigger] seq_has(b.live@, id, addr) by {
                let k = choose|k: int| 0 <= k < b0.live@.len() && (#[trigger] b0.live@[k]).id@ == id && b0.live@[k].addr == addr;
                assert(b.live@[k] == b0.live@[k]);
            }
            assert(kept_but(b0, *b, c.id@, None));
        }
        return BucketResult::Success;
    }
    if can_split {
        proof {
            assert forall|j: int| 0 <= j < b.live@.len() implies bucket_has(b0, (#[trigger] b.live@[j]).id@, b.live@[j].addr) by {}
        }
        return BucketResult::RequireSplit;
    }
    if contact.is_confirmed() {
        let result = b.replace_node(&contact);
        if result != BucketResult::RequireSplit {
            proof {
                let j = choose|j: int|
                    0 <= j < b1.live@.len() && b1.live@[j].spec_fail_count() > 0 && b.live@
                        == b1.live@.update(j, contact);
                lemma_ids_update(b1.live@, j, contact);
                lemma_nodup_update_left(ids(b1.live@), ids(b1.extra@), j, contact.id@);
                assert(b.live@[j] == contact);
                assert forall|k: int| 0 <= k < b.live@.len() implies (#[trigger] b.live@[k]) == contact || b1.live@.contains(b.live@[k]) || b1.extra@.contains(b.live@[k]) by {
                    if k != j {
                        assert(b1.live@[k] == b.live@[k]);
                    }
                }
                assert forall|k: int| 0 <= k < b.extra@.len() implies (#[trigger] b.extra@[k]) == contact || b1.live@.contains(b.extra@[k]) || b1.extra@.contains(b.extra@[k]) by {
                    assert(b1.extra@[k] == b.extra@[k]);
                }
                lemma_placed_new(b0, b1, *b, contact);
                let g = Some((b1.live@[j].id@, b1.live@[j].addr));
                assert(b1.live@ == b0.live@);
                assert(replaceable(b0, b1.live@[j].id@, b1.live@[j].addr));
                assert forall|id: Seq<u8>, addr: SockAddr| bucket_has(b0, id, addr) && id != c.id@ && g != Some((id, addr)) implies #[trigger] bucket_has(*b, id, addr) by {
                    assert(bucket_has(b1, id, addr));
                    if seq_has(b1.live@, id, addr) {
                        let k = choose|k: int| 0 <= k < b1.live@.len() && (#[trigger] b1.live@[k]).id@ == id && b1.live@[k].addr == addr;
                        assert(k != j);
                        assert(b.live@[k] == b1.live@[k]);
                    } else {
                        let k = choose|k: int| 0 <= k < b1.extra@.len() && (#[trigger] b1.extra@[k]).id@ == id && b1.extra@[k].addr == addr;
                        assert(b.extra@[k] == b1.extra@[k]);
                    }
                }
                assert forall|id: Seq<u8>, addr: SockAddr| seq_has(b0.live@, id, addr) && id != c.id@ && g != Some((id, addr)) implies #[trigger] seq_has(b.live@, id, addr) by {
                    let k = choose|k: int| 0 <= k < b0.live@.len() && (#[trigger] b0.live@[k]).id@ == id && b0.live@[k].addr == addr;
                    assert(k != j);
                    assert(b.live@[k] == b1.live@[k]);
                }
                assert(kept_but(b0, *b, c.id@, g));
            }
            return result;
        }
    }
    proof {
        assert(b.live@ == b1.live@ && b.extra@ == b1.extra@);
    }
    let ghost mut gone: Option<(Seq<u8>, SockAddr)> = None;
    if b.extra.len() >= Bucket::MAX_LEN {
        match find_unpinged(&b.extra) {
            Some(i) => {
                let ghost before = b.extra@;
                proof {
                    gone = Some((b1.extra@[i as int].id@, b1.extra@[i as int].addr));
                    let m = if removed >= 0 && i >= removed { i + 1 } else { i as int };
                    assert(b1.extra@[i as int] == b0.extra@[m]);
                    assert(replaceable(b0, b1.extra@[i as int].id@, b1.extra@[i as int].addr));
                }
                b.extra.remove(i);
                proof {
                    lemma_ids_remove(b1.extra@, i as int);
                    lemma_nodup_remove_right(ids(b1.live@), ids(b1.extra@), i as int);
                    assert forall|j: int| 0 <= j < b.extra@.len() implies b1.extra@.contains(#[trigger] b.extra@[j]) by {
                        let m = if j < i { j } else { j + 1 };
                        assert(b1.extra@[m] == b.extra@[j]);
                    }
                    assert(!bucket_ids(*b).contains(contact.id@));
                    assert forall|id: Seq<u8>, addr: SockAddr| bucket_has(b1, id, addr) && gone != Some((id, addr)) implies #[trigger] bucket_has(*b, id, addr) by {
                        if !seq_has(b1.live@, id, addr) {
                            let k = choose|k: int| 0 <= k < b1.extra@.len() && (#[trigger] b1.extra@[k]).id@ == id && b1.extra@[k].addr == addr;
                            assert(k != i);
                            let j = if k < i { k } else { k - 1 };
                            assert(b.extra@[j] == b1.extra@[k]);
                        }
                    }
                }
            },
            None => {
                let result = b.replace_node(&contact);
                if result == BucketResult::Success {
                    proof {
                        let j = choose|j: int|
                            0 <= j < b1.live@.len() && b1.live@[j].spec_fail_count() > 0 && b.live@
                                == b1.live@.update(j, contact);
                        lemma_ids_update(b1.live@, j, contact);
                        lemma_nodup_update_left(ids(b1.live@), ids(b1.extra@), j, contact.id@);
                        assert(b.live@[j] == contact);
                        assert forall|k: int| 0 <= k < b.live@.len() implies (#[trigger] b.live@[k]) == contact || b1.live@.contains(b.live@[k]) || b1.extra@.contains(b.live@[k]) by {
                            if k != j {
                                assert(b1.live@[k] == b.live@[k]);
                            }
                        }
                        assert forall|k: int| 0 <= k < b.extra@.len() implies (#[trigger] b.extra@[k]) == contact || b1.live@.contains(b.extra@[k]) || b1.extra@.contains(b.extra@[k]) by {
                            assert(b1.extra@[k] == b.extra@[k]);
                        }
                        lemma_placed_new(b0, b1, *b, contact);
                        let g = Some((b1.live@[j].id@, b1.live@[j].addr));
                        assert(b1.live@ == b0.live@);
                        assert(replaceable(b0, b1.live@[j].id@, b1.live@[j].addr));
                        assert forall|id: Seq<u8>, addr: SockAddr| bucket_has(b0, id, addr) && id != c.id@ && g != Some((id, addr)) implies #[trigger] bucket_has(*b, id, addr) by {
                            assert(bucket_has(b1, id, addr));
                            if seq_has(b1.live@, id, addr) {
                                let k = choose|k: int| 0 <= k < b1.live@.len() && (#[trigger] b1.live@[k]).id@ == id && b1.live@[k].addr == addr;
                                assert(k != j);
                                assert(b.live@[k] == b1.live@[k]);
                            } else {
                                let k = choose|k: int| 0 <= k < b1.extra@.len() && (#[trigger] b1.extra@[k]).id@ == id && b1.extra@[k].addr == addr;
                                assert(b.extra@[k] == b1.extra@[k]);
                            }
                        }
                        assert forall|id: Seq<u8>, addr: SockAddr| seq_has(b0.live@, id, addr) && id != c.id@ && g != Some((id, addr)) implies #[trigger] seq_has(b.live@, id, addr) by {
                            let k = choose|k: int| 0 <= k < b0.live@.len() && (#[trigger] b0.live@[k]).id@ == id && b0.live@[k].addr == addr;
                            assert(k != j);
                            assert(b.live@[k] == b1.live@[k]);
                        }
                        assert(kept_but(b0, *b, c.id@, g));
                    }
                    return BucketResult::Success;
                } else {
                    proof {
                        assert(removed < 0);
                        assert(b.extra@ =~= b0.extra@);
                        assert(b.live@ =~= b0.live@);
                        assert forall|j: int| 0 <= j < b.live@.len() implies bucket_has(b0, (#[trigger] b.live@[j]).id@, b.live@[j].addr) by {}
                        assert forall|j: int| 0 <= j < b.extra@.len() implies bucket_has(b0, (#[trigger] b.extra@[j]).id@, b.extra@[j].addr) by {}
                    }
                    return BucketResult::Fail;
                }
            },
        }
    }
    let ghost b2 = *b;
    b.extra.push(contact);
    b.last_updated = now();
    proof {
        lemma_ids_push(b2.extra@, contact);
        lemma_nodup_push_right(ids(b2.live@), ids(b2.extra@), contact.id@);
        assert(b.extra@[b.extra@.len() - 1] == contact);
        assert forall|j: int| 0 <= j < b.live@.len() implies (#[trigger] b.live@[j]) == contact || b1.live@.contains(b.live@[j]) || b1.extra@.contains(b.live@[j]) by {
            assert(b1.live@[j] == b.live@[j]);
        }
        assert forall|j: int| 0 <= j < b.extra@.len() implies (#[trigger] b.extra@[j]) == contact || b1.live@.contains(b.extra@[j]) || b1.extra@.contains(b.extra@[j]) by {
            if j < b2.extra@.len() {
                assert(b2.extra@[j] == b.extra@[j]);
            }
        }
        lemma_placed_new(b0, b1, *b, contact);
        assert(gone matches Some(p) ==> replaceable(b0, p.0, p.1));
        assert forall|id: Seq<u8>, addr: SockAddr| bucket_has(b0, id, addr) && id != c.id@ && gone != Some((id, addr)) implies #[trigger] bucket_has(*b, id, addr) by {
            assert(bucket_has(b1, id, addr));
            assert(bucket_has(b2, id, addr));
            if seq_has(b2.live@, id, addr) {
                let k = choose|k: int| 0 <= k < b2.live@.len() && (#[trigger] b2.live@[k]).id@ == id && b2.live@[k].addr == addr;
                assert(b.live@[k] == b2.live@[k]);
            } else {
                let k = choose|k: int| 0 <= k < b2.extra@.len() && (#[trigger] b2.extra@[k]).id@ == id && b2.extra@[k].addr == addr;
                assert(b.extra@[k] == b2.extra@[k]);
            }
        }
        assert(b.live@ == b0.live@);
        assert(kept_but(b0, *b, c.id@, gone));
    }
    BucketResult::Success
}

/// A contact held by a well-placed bucket belongs in it.
proof fn lemma_bucket_has_placed(b: Bucket, own: Seq<u8>, count: int, i: int, id: Seq<u8>, addr: SockAddr)
    requires
        placed(b.live@, own, count, i),
        placed(b.extra@, own, count, i),
        bucket_has(b, id, addr),
    ensures
        bucket_index(own, count, id) == i,
        id != own,
{
    if seq_has(b.live@, id, addr) {
        let j = choose|j: int| 0 <= j < b.live@.len() && (#[trigger] b.live@[j]).id@ == id && b.live@[j].addr == addr;
        assert(bucket_index(own, count, b.live@[j].id@) == i);
    } else {
        let j = choose|j: int| 0 <= j < b.extra@.len() && (#[trigger] b.extra@[j]).id@ == id && b.extra@[j].addr == addr;
        assert(bucket_index(own, count, b.extra@[j].id@) == i);
    }
}

/// No duplicates in a concatenation: none in each part, none shared.
proof fn lemma_nodup_concat(a: Seq<Seq<u8>>, e: Seq<Seq<u8>>)
    requires
        a.no_duplicates(),
        e.no_duplicates(),
        forall|x: Seq<u8>| a.contains(x) ==> !e.contains(x),
    ensures
        (a + e).no_duplicates(),
{
    let s = a + e;
    assert forall|i: int, j: int| 0 <= i < s.len() && 0 <= j < s.len() && i != j implies s[i] != s[j] by {
        if i < a.len() && j >= a.len() {
            assert(a.contains(s[i]));
            assert(e.contains(s[j]));
        } else if j < a.len() && i >= a.len() {
            assert(a.contains(s[j]));
            assert(e.contains(s[i]));
        } else if i < a.len() {
            assert(s[i] == a[i] && s[j] == a[j]);
        } else {
            assert(s[i] == e[i - a.len()] && s[j] == e[j - a.len()]);
        }
    }
}

/// The parts of a concatenation without duplicates.
proof fn lemma_nodup_parts(a: Seq<Seq<u8>>, e: Seq<Seq<u8>>)
    requires
        (a + e).no_duplicates(),
    ensures
        a.no_duplicates(),
        e.no_duplicates(),
        forall|x: Seq<u8>| a.contains(x) ==> !e.contains(x),
{
    let s = a + e;
    assert forall|i: int, j: int| 0 <= i < a.len() && 0 <= j < a.len() && i != j implies a[i] != a[j] by {
        assert(s[i] == a[i] && s[j] == a[j]);
    }
    assert forall|i: int, j: int| 0 <= i < e.len() && 0 <= j < e.len() && i != j implies e[i] != e[j] by {
        assert(s[a.len() + i] == e[i] && s[a.len() + j] == e[j]);
    }
    assert forall|x: Seq<u8>| a.contains(x) implies !e.contains(x) by {
        let i = choose|i: int| 0 <= i < a.len() && a[i] == x;
        if e.contains(x) {
            let j = choose|j: int| 0 <= j < e.len() && e[j] == x;
            assert(s[i] == x && s[a.len() + j] == x);
        }
    }
}

/// Filtering keeps the ids free of duplicates, and takes no new ones.
proof fn lemma_filter_ids(s: Seq<Contact>, p: spec_fn(Contact) -> bool)
    requires
        ids(s).no_duplicates(),
    ensures
        ids(s.filter(p)).no_duplicates(),
        forall|x: Seq<u8>| ids(s.filter(p)).contains(x) ==> ids(s).contains(x),
    decreases s.len(),
{
    reveal_with_fuel(Seq::<_>::filter, 1);
    if s.len() > 0 {
        let r = s.drop_last();
        assert(ids(r) =~= ids(s).drop_last());
        assert forall|i: int, j: int| 0 <= i < ids(r).len() && 0 <= j < ids(r).len() && i != j implies ids(r)[i] != ids(r)[j] by {
            assert(ids(r)[i] == ids(s)[i] && ids(r)[j] == ids(s)[j]);
        }
        lemma_filter_ids(r, p);
        if p(s.last()) {
            assert(s.filter(p) == r.filter(p).push(s.last()));
            lemma_ids_push(r.filter(p), s.last());
            let x = s.last().id@;
            assert(!ids(r.filter(p)).contains(x)) by {
                if ids(r.filter(p)).contains(x) {
                    assert(ids(r).contains(x));
                    let i = choose|i: int| 0 <= i < ids(r).len() && ids(r)[i] == x;
                    assert(ids(s)[i] == x && ids(s)[s.len() - 1] == x);
                }
            }
            let t = ids(r.filter(p)).push(x);
            assert forall|i: int, j: int| 0 <= i < t.len() && 0 <= j < t.len() && i != j implies t[i] != t[j] by {
                if i == t.len() - 1 {
                    assert(ids(r.filter(p)).contains(t[j]));
                } else if j == t.len() - 1 {
                    assert(ids(r.filter(p)).contains(t[i]));
                }
            }
            assert forall|y: Seq<u8>| t.contains(y) implies ids(s).contains(y) by {
                let i = choose|i: int| 0 <= i < t.len() && t[i] == y;
                if i < t.len() - 1 {
                    assert(ids(r.filter(p)).contains(y));
                    assert(ids(r).contains(y));
                    let k = choose|k: int| 0 <= k < ids(r).len() && ids(r)[k] == y;
                    assert(ids(s)[k] == y);
                } else {
                    assert(ids(s)[s.len() - 1] == y);
                }
            }
        } else {
            assert(s.filter(p) == r.filter(p));
            assert forall|y: Seq<u8>| ids(r.filter(p)).contains(y) implies ids(s).contains(y) by {
                assert(ids(r).contains(y));
                let k = choose|k: int| 0 <= k < ids(r).len() && ids(r)[k] == y;
                assert(ids(s)[k] == y);
            }
        }
    }
}

/// The contacts of a bucket split in two: each one stays or moves.
proof fn lemma_split_has(b: Bucket, keep: Bucket, moved: Bucket, own: Seq<u8>, k: int, id: Seq<u8>, addr: SockAddr)
    requires
        keep.live@ == b.live@.filter(stays(own, k)),
        keep.extra@ == b.extra@.filter(stays(own, k)),
        moved.live@ == b.live@.filter(moves(own, k)),
        moved.extra@ == b.extra@.filter(moves(own, k)),
    ensures
        bucket_has(b, id, addr) <==> bucket_has(keep, id, addr) || bucket_has(moved, id, addr),
        seq_has(b.live@, id, addr) <==> seq_has(keep.live@, id, addr) || seq_has(moved.live@, id, addr),
        bucket_has(keep, id, addr) ==> bucket_has(b, id, addr) && xlz_of(own, id) <= k,
        bucket_has(moved, id, addr) ==> bucket_has(b, id, addr) && xlz_of(own, id) > k,
{
    if seq_has(b.live@, id, addr) {
        let j = choose|j: int| 0 <= j < b.live@.len() && (#[trigger] b.live@[j]).id@ == id && b.live@[j].addr == addr;
        let c = b.live@[j];
        if xlz_of(own, id) <= k {
            b.live@.lemma_filter_contains(stays(own, k), j);
            let m = choose|m: int| 0 <= m < keep.live@.len() && keep.live@[m] == c;
            assert(seq_has(keep.live@, id, addr));
        } else {
            b.live@.lemma_filter_contains(moves(own, k), j);
            let m = choose|m: int| 0 <= m < moved.live@.len() && moved.live@[m] == c;
            assert(seq_has(moved.live@, id, addr));
        }
    }
    if seq_has(b.extra@, id, addr) {
        let j = choose|j: int| 0 <= j < b.extra@.len() && (#[trigger] b.extra@[j]).id@ == id && b.extra@[j].addr == addr;
        let c = b.extra@[j];
        if xlz_of(own, id) <= k {
            b.extra@.lemma_filter_contains(stays(own, k), j);
            let m = choose|m: int| 0 <= m < keep.extra@.len() && keep.extra@[m] == c;
            assert(seq_has(keep.extra@, id, addr));
        } else {
            b.extra@.lemma_filter_contains(moves(own, k), j);
            let m = choose|m: int| 0 <= m < moved.extra@.len() && moved.extra@[m] == c;
            assert(seq_has(moved.extra@, id, addr));
        }
    }
    if seq_has(keep.live@, id, addr) {
        let j = choose|j: int| 0 <= j < keep.live@.len() && (#[trigger] keep.live@[j]).id@ == id && keep.live@[j].addr == addr;
        assert(stays(own, k)(keep.live@[j]));
        b.live@.lemma_filter_contains_rev(stays(own, k), keep.live@[j]);
        let m = choose|m: int| 0 <= m < b.live@.len() && b.live@[m] == keep.live@[j];
        assert(seq_has(b.live@, id, addr));
    }
    if seq_has(keep.extra@, id, addr) {
        let j = choose|j: int| 0 <= j < keep.extra@.len() && (#[trigger] keep.extra@[j]).id@ == id && keep.extra@[j].addr == addr;
        assert(stays(own, k)(keep.extra@[j]));
        b.extra@.lemma_filter_contains_rev(stays(own, k), keep.extra@[j]);
        let m = choose|m: int| 0 <= m < b.extra@.len() && b.extra@[m] == keep.extra@[j];
        assert(seq_has(b.extra@, id, addr));
    }
    if seq_has(moved.live@, id, addr) {
        let j = choose|j: int| 0 <= j < moved.live@.len() && (#[trigger] moved.live@[j]).id@ == id && moved.live@[j].addr == addr;
        assert(moves(own, k)(moved.live@[j]));
        b.live@.lemma_filter_contains_rev(moves(own, k), moved.live@[j]);
        let m = choose|m: int| 0 <= m < b.live@.len() && b.live@[m] == moved.live@[j];
        assert(seq_has(b.live@, id, addr));
    }
    if seq_has(moved.extra@, id, addr) {
        let j = choose|j: int| 0 <= j < moved.extra@.len() && (#[trigger] moved.extra@[j]).id@ == id && moved.extra@[j].addr == addr;
        assert(moves(own, k)(moved.extra@[j]));
        b.extra@.lemma_filter_contains_rev(moves(own, k), moved.extra@[j]);
        let m = choose|m: int| 0 <= m < b.extra@.len() && b.extra@[m] == moved.extra@[j];
        assert(seq_has(b.extra@, id, addr));
    }
}

/// The elements of a filtered sequence satisfy the filter and come from the sequence.
proof fn lemma_filter_elem(s: Seq<Contact>, p: spec_fn(Contact) -> bool, j: int)
    requires
        0 <= j < s.filter(p).len(),
    ensures
        p(s.filter(p)[j]),
        s.contains(s.filter(p)[j]),
{
    s.lemma_filter_pred(p, j);
    assert(s.filter(p).contains(s.filter(p)[j]));
    s.lemma_filter_contains_rev(p, s.filter(p)[j]);
}

/// A contact replaceable in a part of a split bucket was replaceable in
/// the bucket.
proof fn lemma_split_replaceable(b: Bucket, part: Bucket, f: spec_fn(Contact) -> bool, id: Seq<u8>, addr: SockAddr)
    requires
        part.live@ == b.live@.filter(f),
        part.extra@ == b.extra@.filter(f),
        replaceable(part, id, addr),
    ensures
        replaceable(b, id, addr),
{
    if exists|j: int|
        0 <= j < part.live@.len() && (#[trigger] part.live@[j]).id@ == id && part.live@[j].addr == addr
            && part.live@[j].spec_fail_count() > 0 {
        let j = choose|j: int|
            0 <= j < part.live@.len() && (#[trigger] part.live@[j]).id@ == id && part.live@[j].addr == addr
                && part.live@[j].spec_fail_count() > 0;
        lemma_filter_elem(b.live@, f, j);
        let m = choose|m: int| 0 <= m < b.live@.len() && b.live@[m] == part.live@[j];
        assert(b.live@[m].id@ == id);
    } else {
        let j = choose|j: int|
            0 <= j < part.extra@.len() && (#[trigger] part.extra@[j]).id@ == id && part.extra@[j].addr == addr
                && part.extra@[j].timeout_count is None;
        lemma_filter_elem(b.extra@, f, j);
        let m = choose|m: int| 0 <= m < b.extra@.len() && b.extra@[m] == part.extra@[j];
        assert(b.extra@[m].id@ == id);
    }
}

/// The table holds a live contact with this id and address.
pub open spec fn live_has(t: RoutingTable, id: Seq<u8>, addr: SockAddr) -> bool {
    exists|i: int| 0 <= i < t.buckets@.len() && seq_has(#[trigger] t.buckets@[i].live@, id, addr)
}

/// The tables have as many buckets, each with as many live contacts and
/// the same extra ones.
pub open spec fn same_sizes(t0: RoutingTable, t1: RoutingTable) -> bool {
    &&& t1.buckets@.len() == t0.buckets@.len()
    &&& forall|i: int|
        0 <= i < t0.buckets@.len() ==> (#[trigger] t1.buckets@[i]).live@.len() == t0.buckets@[i].live@.len()
            && t1.buckets@[i].extra@ == t0.buckets@[i].extra@
}

/// Some bucket of the table holds this contact as one that had timed out
/// or as a replacement candidate never pinged.
pub open spec fn held_replaceable(t: RoutingTable, id: Seq<u8>, addr: SockAddr) -> bool {
    exists|i: int| 0 <= i < t.buckets@.len() && #[trigger] replaceable(t.buckets@[i], id, addr)
}

/// A replaceable contact of a bucket of the table is held by the table.
proof fn lemma_replaceable_held(t: RoutingTable, i: int, id: Seq<u8>, addr: SockAddr)
    requires
        0 <= i < t.buckets@.len(),
        replaceable(t.buckets@[i], id, addr),
    ensures
        t.has(id, addr),
{
    let b = t.buckets@[i];
    if exists|j: int| 0 <= j < b.live@.len() && (#[trigger] b.live@[j]).id@ == id && b.live@[j].addr == addr
        && b.live@[j].spec_fail_count() > 0 {
        let j = choose|j: int| 0 <= j < b.live@.len() && (#[trigger] b.live@[j]).id@ == id && b.live@[j].addr == addr
            && b.live@[j].spec_fail_count() > 0;
        assert(seq_has(b.live@, id, addr));
    } else {
        let j = choose|j: int| 0 <= j < b.extra@.len() && (#[trigger] b.extra@[j]).id@ == id && b.extra@[j].addr == addr
            && b.extra@[j].timeout_count is None;
        assert(seq_has(b.extra@, id, addr));
    }
    assert(bucket_has(t.buckets@[i], id, addr));
}

/// Tables whose buckets have the same live contacts have the same live
/// contacts.
proof fn lemma_live_same(t0: RoutingTable, t1: RoutingTable)
    requires
        t1.buckets@.len() == t0.buckets@.len(),
        forall|i: int| 0 <= i < t0.buckets@.len() ==> (#[trigger] t1.buckets@[i]).live@ == t0.buckets@[i].live@,
    ensures
        forall|id: Seq<u8>, addr: SockAddr| #[trigger] live_has(t1, id, addr) == live_has(t0, id, addr),
{
    assert forall|id: Seq<u8>, addr: SockAddr| #[trigger] live_has(t1, id, addr) == live_has(t0, id, addr) by {
        if live_has(t1, id, addr) {
            let i = choose|i: int| 0 <= i < t1.buckets@.len() && seq_has(#[trigger] t1.buckets@[i].live@, id, addr);
            assert(seq_has(t0.buckets@[i].live@, id, addr));
        }
        if live_has(t0, id, addr) {
            let i = choose|i: int| 0 <= i < t0.buckets@.len() && seq_has(#[trigger] t0.buckets@[i].live@, id, addr);
            assert(seq_has(t1.buckets@[i].live@, id, addr));
        }
    }
}

/// Dropping a last bucket without live contacts keeps the live contacts.
proof fn lemma_live_pop(t0: RoutingTable, t1: RoutingTable)
    requires
        t0.buckets@.len() >= 1,
        t1.buckets@ == t0.buckets@.drop_last(),
        t0.buckets@.last().live@.len() == 0,
    ensures
        forall|id: Seq<u8>, addr: SockAddr| #[trigger] live_has(t1, id, addr) == live_has(t0, id, addr),
{
    assert forall|id: Seq<u8>, addr: SockAddr| #[trigger] live_has(t1, id, addr) == live_has(t0, id, addr) by {
        if live_has(t1, id, addr) {
            let i = choose|i: int| 0 <= i < t1.buckets@.len() && seq_has(#[trigger] t1.buckets@[i].live@, id, addr);
            assert(t0.buckets@[i] == t1.buckets@[i]);
            assert(seq_has(t0.buckets@[i].live@, id, addr));
        }
        if live_has(t0, id, addr) {
            let i = choose|i: int| 0 <= i < t0.buckets@.len() && seq_has(#[trigger] t0.buckets@[i].live@, id, addr);
            assert(i < t0.buckets@.len() - 1);
            assert(t0.buckets@[i] == t1.buckets@[i]);
            assert(seq_has(t1.buckets@[i].live@, id, addr));
        }
    }
}

/// A last step that keeps all live contacts but one, after steps that kept
/// them all, keeps them all but one.
proof fn lemma_compose_kept(t0: RoutingTable, t2: RoutingTable, t4: RoutingTable, cid: Seq<u8>, caddr: SockAddr, g: Option<(Seq<u8>, SockAddr)>)
    requires
        forall|id: Seq<u8>, addr: SockAddr| live_has(t0, id, addr) && id != cid ==> #[trigger] live_has(t2, id, addr),
        forall|id: Seq<u8>, addr: SockAddr| #[trigger] t2.has(id, addr) ==> t0.has(id, addr) || (id == cid && addr == caddr),
        forall|id: Seq<u8>, addr: SockAddr| held_replaceable(t2, id, addr) ==> #[trigger] held_replaceable(t0, id, addr),
        table_kept_but(t2, t4, cid, g),
    ensures
        exists|g2: Option<(Seq<u8>, SockAddr)>| #[trigger] kept_all_but(t0, t4, cid, g2),
{
    let g2 = match g {
        Some(p) => if t0.has(p.0, p.1) { g } else { None },
        None => None,
    };
    if g2 is Some {
        let p = g2.unwrap();
        assert(held_replaceable(t2, p.0, p.1));
    }
    assert forall|id: Seq<u8>, addr: SockAddr| live_has(t0, id, addr) && id != cid && g2 != Some((id, addr)) implies #[trigger] live_has(t4, id, addr) by {
        assert(live_has(t2, id, addr));
        if g == Some((id, addr)) {
            let i = choose|i: int| 0 <= i < t0.buckets@.len() && seq_has(#[trigger] t0.buckets@[i].live@, id, addr);
            assert(bucket_has(t0.buckets@[i], id, addr));
            assert(t0.has(id, addr));
        }
    }
    assert(kept_all_but(t0, t4, cid, g2));
}

/// Every contact of `t0` whose id is not `cid` is still in `t1`, but `g`
/// when it is some: a contact of `t0` that had timed out or that was a
/// replacement candidate never pinged.
pub open spec fn table_kept_but(t0: RoutingTable, t1: RoutingTable, cid: Seq<u8>, g: Option<(Seq<u8>, SockAddr)>) -> bool {
    &&& g matches Some(p) ==> exists|i: int| 0 <= i < t0.buckets@.len() && #[trigger] replaceable(t0.buckets@[i], p.0, p.1)
    &&& forall|id: Seq<u8>, addr: SockAddr|
        t0.has(id, addr) && id != cid && g != Some((id, addr)) ==> #[trigger] t1.has(id, addr)
    &&& live_kept_but(t0, t1, cid, g)
}

/// Every live contact of `t0` whose id is not `cid` is still a live contact
/// of `t1`, but `g` when it is some.
pub open spec fn live_kept_but(t0: RoutingTable, t1: RoutingTable, cid: Seq<u8>, g: Option<(Seq<u8>, SockAddr)>) -> bool {
    forall|id: Seq<u8>, addr: SockAddr|
        live_has(t0, id, addr) && id != cid && g != Some((id, addr)) ==> #[trigger] live_has(t1, id, addr)
}

/// Every live contact of `t0` whose id is not `cid` is still a live contact
/// of `t1`, but `g` when it is some: a contact of `t0` that had timed out
/// or that was a replacement candidate never pinged.
pub open spec fn kept_all_but(t0: RoutingTable, t1: RoutingTable, cid: Seq<u8>, g: Option<(Seq<u8>, SockAddr)>) -> bool {
    &&& g matches Some(p) ==> t0.has(p.0, p.1) && held_replaceable(t0, p.0, p.1)
    &&& live_kept_but(t0, t1, cid, g)
}

/// A bucket split at index `k`: the kept part is well-placed in bucket `k`,
/// the moved part in bucket `k + 1`, of a table of `k + 2` buckets.
proof fn lemma_split_placed(b: Bucket, keep: Bucket, moved: Bucket, own: Seq<u8>, k: int)
    requires
        0 <= k,
        bucket_ok(b, own, k + 1, k),
        keep.live@ == b.live@.filter(stays(own, k)),
        keep.extra@ == b.extra@.filter(stays(own, k)),
        moved.live@ == b.live@.filter(moves(own, k)),
        moved.extra@ == b.extra@.filter(moves(own, k)),
    ensures
        bucket_ok(keep, own, k + 2, k),
        bucket_ok(moved, own, k + 2, k + 1),
{
    assert forall|j: int| 0 <= j < keep.live@.len() implies bucket_index(own, k + 2, (#[trigger] keep.live@[j]).id@) == k && keep.live@[j].id@ != own by {
        lemma_filter_elem(b.live@, stays(own, k), j);
        let m = choose|m: int| 0 <= m < b.live@.len() && b.live@[m] == keep.live@[j];
        assert(bucket_index(own, k + 1, b.live@[m].id@) == k);
    }
    assert forall|j: int| 0 <= j < keep.extra@.len() implies bucket_index(own, k + 2, (#[trigger] keep.extra@[j]).id@) == k && keep.extra@[j].id@ != own by {
        lemma_filter_elem(b.extra@, stays(own, k), j);
        let m = choose|m: int| 0 <= m < b.extra@.len() && b.extra@[m] == keep.extra@[j];
        assert(bucket_index(own, k + 1, b.extra@[m].id@) == k);
    }
    assert forall|j: int| 0 <= j < moved.live@.len() implies bucket_index(own, k + 2, (#[trigger] moved.live@[j]).id@) == k + 1 && moved.live@[j].id@ != own by {
        lemma_filter_elem(b.live@, moves(own, k), j);
        let m = choose|m: int| 0 <= m < b.live@.len() && b.live@[m] == moved.live@[j];
        assert(bucket_index(own, k + 1, b.live@[m].id@) == k);
    }
    assert forall|j: int| 0 <= j < moved.extra@.len() implies bucket_index(own, k + 2, (#[trigger] moved.extra@[j]).id@) == k + 1 && moved.extra@[j].id@ != own by {
        lemma_filter_elem(b.extra@, moves(own, k), j);
        let m = choose|m: int| 0 <= m < b.extra@.len() && b.extra@[m] == moved.extra@[j];
        assert(bucket_index(own, k + 1, b.extra@[m].id@) == k);
    }
    lemma_nodup_parts(ids(b.live@), ids(b.extra@));
    lemma_filter_ids(b.live@, stays(own, k));
    lemma_filter_ids(b.extra@, stays(own, k));
    lemma_filter_ids(b.live@, moves(own, k));
    lemma_filter_ids(b.extra@, moves(own, k));
    assert forall|x: Seq<u8>| ids(keep.live@).contains(x) implies !ids(keep.extra@).contains(x) by {
        assert(ids(b.live@).contains(x));
    }
    assert forall|x: Seq<u8>| ids(moved.live@).contains(x) implies !ids(moved.extra@).contains(x) by {
        assert(ids(b.live@).contains(x));
    }
    lemma_nodup_concat(ids(keep.live@), ids(keep.extra@));
    lemma_nodup_concat(ids(moved.live@), ids(moved.extra@));
}

/// What counting a timeout of node `id` does to a table: only the live
/// contact with that id, if any, changes, its fail count going up by one
/// (staying at 255) when it was pinged; contacts stay the same.
pub open spec fn failed_effect(t0: RoutingTable, t1: RoutingTable, id: Seq<u8>) -> bool {
    let k = t0.spec_bucket_of(id);
    let b0 = t0.buckets@[k];
    let b1 = t1.buckets@[k];
    &&& t1.own_id == t0.own_id
    &&& t1.router_nodes@ == t0.router_nodes@
    &&& t1.buckets@.len() == t0.buckets@.len()
    &&& forall|id2: Seq<u8>, addr: SockAddr| #[trigger] t1.has(id2, addr) == t0.has(id2, addr)
    &&& forall|i: int| 0 <= i < t0.buckets@.len() && i != k ==> #[trigger] t1.buckets@[i] == t0.buckets@[i]
    &&& b1.extra@ == b0.extra@
    &&& !seq_has_id(b0.live@, id) ==> b1.live@ == b0.live@
    &&& forall|j: int|
        0 <= j < b0.live@.len() && (#[trigger] b0.live@[j]).id@ == id ==> b1.live@ == b0.live@.update(
            j,
            Contact {
                timeout_count: match b0.live@[j].timeout_count {
                    Some(c) => Some(if c == 255 { 255u8 } else { (c + 1) as u8 }),
                    None => None,
                },
                ..b0.live@[j]
            },
        )
}

/// What hearing from node `id` does to a table: only the live contact with
/// that id, if any, changes, becoming alive and queried with its fail
/// count cleared; contacts stay the same.
pub open spec fn heard_from_effect(t0: RoutingTable, t1: RoutingTable, id: Seq<u8>) -> bool {
    let k = t0.spec_bucket_of(id);
    let b0 = t0.buckets@[k];
    let b1 = t1.buckets@[k];
    &&& t1.own_id == t0.own_id
    &&& t1.router_nodes@ == t0.router_nodes@
    &&& t1.buckets@.len() == t0.buckets@.len()
    &&& forall|id2: Seq<u8>, addr: SockAddr| #[trigger] t1.has(id2, addr) == t0.has(id2, addr)
    &&& forall|i: int| 0 <= i < t0.buckets@.len() && i != k ==> #[trigger] t1.buckets@[i] == t0.buckets@[i]
    &&& b1.extra@ == b0.extra@
    &&& !seq_has_id(b0.live@, id) ==> b1.live@ == b0.live@
    &&& forall|j: int|
        0 <= j < b0.live@.len() && (#[trigger] b0.live@[j]).id@ == id ==> b1.live@ == b0.live@.update(
            j,
            Contact {
                status: crate::dht::contact::ContactStatus {
                    bits: (crate::dht::contact::ContactStatus::ALIVE | crate::dht::contact::ContactStatus::QUERIED) as u8,
                },
                timeout_count: match b0.live@[j].timeout_count {
                    Some(c) => Some(0u8),
                    None => None,
                },
                ..b0.live@[j]
            },
        )
}

impl RoutingTable {
    pub fn new(own_id: NodeId, router_nodes: Vec<SockAddr>) -> (r: Self)
        ensures
            r.wf(),
            r.own_id == own_id,
            r.buckets@.len() == 1,
            r.buckets@[0].live@.len() == 0,
            r.buckets@[0].extra@.len() == 0,
            forall|a: SockAddr| r.router_nodes@.contains(a) <==> exists|i: int| 0 <= i < router_nodes@.len() && a == spec_to_ipv6(#[trigger] router_nodes@[i]),
    {
        let mut routers: Vec<SockAddr> = Vec::new();
        let mut i: usize = 0;
        while i < router_nodes.len()
            invariant
                i <= router_nodes@.len(),
                no_dup_addrs(routers@),
                forall|a: SockAddr| routers@.contains(a) <==> exists|k: int| 0 <= k < i && a == spec_to_ipv6(#[trigger] router_nodes@[k]),
            decreases router_nodes@.len() - i,
        {
            let a = to_ipv6(router_nodes[i]);
            let ghost prev = routers@;
            if !contains_addr(&routers, &a) {
                routers.push(a);
                proof {
                    assert forall|j: int, k: int| 0 <= j < routers@.len() && 0 <= k < routers@.len() && j != k implies routers@[j] != routers@[k] by {
                        if j == prev.len() {
                            assert(prev.contains(routers@[k]));
                        } else if k == prev.len() {
                            assert(prev.contains(routers@[j]));
                        }
                    }
                }
            }
            proof {
                assert forall|x: SockAddr| routers@.contains(x) <==> exists|k: int| 0 <= k < i + 1 && x == spec_to_ipv6(#[trigger] router_nodes@[k]) by {
                    if routers@.contains(x) {
                        if x == a {
                            assert(x == spec_to_ipv6(router_nodes@[i as int]));
                        } else {
                            let j = choose|j: int| 0 <= j < routers@.len() && routers@[j] == x;
                            assert(prev[j] == x);
                            assert(prev.contains(x));
                            let k = choose|k: int| 0 <= k < i && x == spec_to_ipv6(#[trigger] router_nodes@[k]);
                            assert(0 <= k < i + 1);
                        }
                    }
                    if exists|k: int| 0 <= k < i + 1 && x == spec_to_ipv6(#[trigger] router_nodes@[k]) {
                        let k = choose|k: int| 0 <= k < i + 1 && x == spec_to_ipv6(#[trigger] router_nodes@[k]);
                        if k < i {
                            assert(prev.contains(x));
                            let j = choose|j: int| 0 <= j < prev.len() && prev[j] == x;
                            assert(routers@[j] == x);
                        } else {
                            assert(x == a);
                            if prev.contains(a) {
                                let j = choose|j: int| 0 <= j < prev.len() && prev[j] == x;
                                assert(routers@[j] == x);
                            } else {
                                assert(routers@[prev.len() as int] == x);
                            }
                        }
                    }
                }
            }
            i = i + 1;
        }
        let mut buckets: Vec<Bucket> = Vec::new();
        buckets.push(Bucket::new());
        let r = Self { own_id, buckets, router_nodes: routers };
        proof {
            assert(bucket_ids(r.buckets@[0]) =~= Seq::<Seq<u8>>::empty());
        }
        r
    }

    pub fn add_router_node(&mut self, router: SockAddr)
        requires
            old(self).wf(),
        ensures
            final(self).wf(),
            final(self).own_id == old(self).own_id,
            final(self).buckets@ == old(self).buckets@,
            forall|a: SockAddr| final(self).router_nodes@.contains(a) <==> (old(self).router_nodes@.contains(a) || a == router),
    {
        if !contains_addr(&self.router_nodes, &router) {
            self.router_nodes.push(router);
        }
        proof {
            assert forall|a: SockAddr| self.router_nodes@.contains(a) implies (old(self).router_nodes@.contains(a) || a == router) by {
                let i = choose|i: int| 0 <= i < self.router_nodes@.len() && self.router_nodes@[i] == a;
                if i < old(self).router_nodes@.len() {
                    assert(old(self).router_nodes@[i] == a);
                }
            }
            assert forall|a: SockAddr| old(self).router_nodes@.contains(a) implies self.router_nodes@.contains(a) by {
                let i = choose|i: int| 0 <= i < old(self).router_nodes@.len() && old(self).router_nodes@[i] == a;
                assert(self.router_nodes@[i] == a);
            }
            if !old(self).router_nodes@.contains(router) {
                assert(self.router_nodes@[self.router_nodes@.len() - 1] == router);
            }
        }
    }

    /// The bucket that `id` belongs to.
    fn find_bucket(&self, id: &NodeId) -> (r: usize)
        requires
            self.wf(),
        ensures
            r == self.spec_bucket_of(id@),
    {
        let idx = self.own_id.xlz(id);
        let last_idx = self.buckets.len() - 1;
        if idx < last_idx {
            idx
        } else {
            last_idx
        }
    }

    /// A contact's address is unique given its id.
    proof fn lemma_one_addr(&self, id: Seq<u8>, a1: SockAddr, a2: SockAddr)
        requires
            self.wf(),
            self.has(id, a1),
            self.has(id, a2),
        ensures
            a1 == a2,
    {
        self.lemma_has_in_own_bucket(id, a1);
        self.lemma_has_in_own_bucket(id, a2);
        let b = self.buckets@[self.spec_bucket_of(id)];
        let j1 = if seq_has(b.live@, id, a1) {
            choose|j: int| 0 <= j < b.live@.len() && (#[trigger] b.live@[j]).id@ == id && b.live@[j].addr == a1
        } else {
            b.live@.len() + choose|j: int| 0 <= j < b.extra@.len() && (#[trigger] b.extra@[j]).id@ == id && b.extra@[j].addr == a1
        };
        let j2 = if seq_has(b.live@, id, a2) {
            choose|j: int| 0 <= j < b.live@.len() && (#[trigger] b.live@[j]).id@ == id && b.live@[j].addr == a2
        } else {
            b.live@.len() + choose|j: int| 0 <= j < b.extra@.len() && (#[trigger] b.extra@[j]).id@ == id && b.extra@[j].addr == a2
        };
        let all = b.live@ + b.extra@;
        assert(bucket_ids(b) =~= ids(all));
        assert(all[j1].id@ == id && all[j1].addr == a1);
        assert(all[j2].id@ == id && all[j2].addr == a2);
        if j1 != j2 {
            assert(bucket_ids(b)[j1] == id && bucket_ids(b)[j2] == id);
        }
    }
}

/// A bucket that is not the last one keeps its place when the table grows
/// or loses its last bucket.
proof fn lemma_recount(b: Bucket, own: Seq<u8>, c1: int, c2: int, i: int)
    requires
        bucket_ok(b, own, c1, i),
        0 <= i < c1 - 1,
        i <= c2 - 1,
    ensures
        bucket_ok(b, own, c2, i),
{
    assert forall|j: int| 0 <= j < b.live@.len() implies bucket_index(own, c2, (#[trigger] b.live@[j]).id@) == i && b.live@[j].id@ != own by {
        assert(bucket_index(own, c1, b.live@[j].id@) == i);
    }
    assert forall|j: int| 0 <= j < b.extra@.len() implies bucket_index(own, c2, (#[trigger] b.extra@[j]).id@) == i && b.extra@[j].id@ != own by {
        assert(bucket_index(own, c1, b.extra@[j].id@) == i);
    }
}

impl RoutingTable {
    /// Splits the last bucket: the contacts closer to our own id than its
    /// index allows move to a new last bucket.
    fn split_bucket(&mut self)
        requires
            old(self).wf(),
            old(self).buckets@.len() < 159,
        ensures
            final(self).wf(),
            final(self).own_id == old(self).own_id,
            final(self).router_nodes@ == old(self).router_nodes@,
            final(self).buckets@.len() == old(self).buckets@.len() + 1,
            split_of(*old(self), *final(self)),
            forall|id: Seq<u8>, addr: SockAddr| #[trigger] final(self).has(id, addr) == old(self).has(id, addr),
            forall|id: Seq<u8>, addr: SockAddr| #[trigger] live_has(*final(self), id, addr) == live_has(*old(self), id, addr),
            forall|i: int| 0 <= i < old(self).buckets@.len() - 1 ==> #[trigger] final(self).buckets@[i] == old(self).buckets@[i],
            forall|i: int, id: Seq<u8>, addr: SockAddr|
                0 <= i < final(self).buckets@.len() && #[trigger] replaceable(final(self).buckets@[i], id, addr)
                    ==> exists|i0: int| 0 <= i0 < old(self).buckets@.len() && #[trigger] replaceable(old(self).buckets@[i0], id, addr),
    {
        if self.buckets.len() == 0 {
            return;
        }
        let ghost old_buckets = self.buckets@;
        let index = self.buckets.len() - 1;
        let new_bucket = self.buckets[index].split(&self.own_id, index);
        self.buckets.push(new_bucket);
        proof {
            let k = index as int;
            let own = self.own_id@;
            let b = old_buckets[k];
            let keep = self.buckets@[k];
            let moved = self.buckets@[k + 1];
            assert(bucket_ok(b, own, k + 1, k));
            lemma_split_placed(b, keep, moved, own, k);
            assert forall|i: int| 0 <= i < self.buckets@.len() implies bucket_ok(#[trigger] self.buckets@[i], own, self.buckets@.len() as int, i) by {
                if i < k {
                    assert(self.buckets@[i] == old_buckets[i]);
                    assert(bucket_ok(old_buckets[i], own, k + 1, i));
                    lemma_recount(old_buckets[i], own, k + 1, k + 2, i);
                }
            }
            assert forall|id: Seq<u8>, addr: SockAddr| #[trigger] self.has(id, addr) == old(self).has(id, addr) by {
                lemma_split_has(b, keep, moved, own, k, id, addr);
                if self.has(id, addr) {
                    let i = choose|i: int| 0 <= i < self.buckets@.len() && bucket_has(#[trigger] self.buckets@[i], id, addr);
                    if i < k {
                        assert(old_buckets[i] == self.buckets@[i]);
                        assert(bucket_has(old(self).buckets@[i], id, addr));
                    } else {
                        assert(bucket_has(old(self).buckets@[k], id, addr));
                    }
                }
                if old(self).has(id, addr) {
                    let i = choose|i: int| 0 <= i < old(self).buckets@.len() && bucket_has(#[trigger] old(self).buckets@[i], id, addr);
                    if i < k {
                        assert(bucket_has(self.buckets@[i], id, addr));
                    } else if bucket_has(keep, id, addr) {
                        assert(bucket_has(self.buckets@[k], id, addr));
                    } else {
                        assert(bucket_has(self.buckets@[k + 1], id, addr));
                    }
                }
            }
            assert forall|id: Seq<u8>, addr: SockAddr| #[trigger] live_has(*self, id, addr) == live_has(*old(self), id, addr) by {
                lemma_split_has(b, keep, moved, own, k, id, addr);
                if live_has(*self, id, addr) {
                    let i = choose|i: int| 0 <= i < self.buckets@.len() && seq_has(#[trigger] self.buckets@[i].live@, id, addr);
                    if i < k {
                        assert(old_buckets[i] == self.buckets@[i]);
                        assert(seq_has(old(self).buckets@[i].live@, id, addr));
                    } else {
                        assert(seq_has(old(self).buckets@[k].live@, id, addr));
                    }
                }
                if live_has(*old(self), id, addr) {
                    let i = choose|i: int| 0 <= i < old(self).buckets@.len() && seq_has(#[trigger] old(self).buckets@[i].live@, id, addr);
                    if i < k {
                        assert(self.buckets@[i] == old_buckets[i]);
                        assert(seq_has(self.buckets@[i].live@, id, addr));
                    } else if seq_has(keep.live@, id, addr) {
                        assert(seq_has(self.buckets@[k].live@, id, addr));
                    } else {
                        assert(seq_has(self.buckets@[k + 1].live@, id, addr));
                    }
                }
            }
            assert forall|i: int, id: Seq<u8>, addr: SockAddr|
                0 <= i < self.buckets@.len() && #[trigger] replaceable(self.buckets@[i], id, addr)
                    implies exists|i0: int| 0 <= i0 < old(self).buckets@.len() && #[trigger] replaceable(old(self).buckets@[i0], id, addr) by {
                if i < k {
                    assert(old_buckets[i] == self.buckets@[i]);
                    assert(replaceable(old(self).buckets@[i], id, addr));
                } else if i == k {
                    lemma_split_replaceable(b, keep, stays(own, k), id, addr);
                    assert(replaceable(old(self).buckets@[k], id, addr));
                } else {
                    lemma_split_replaceable(b, moved, moves(own, k), id, addr);
                    assert(replaceable(old(self).buckets@[k], id, addr));
                }
            }
        }
    }

    /// Tries to place a contact in the bucket it belongs to.
    fn add_contact_impl(&mut self, contact: &ContactRef<'_>) -> (r: BucketResult)
        requires
            old(self).wf(),
        ensures
            final(self).wf(),
            final(self).own_id == old(self).own_id,
            final(self).router_nodes@ == old(self).router_nodes@,
            final(self).buckets@.len() == old(self).buckets@.len(),
            r == BucketResult::Success ==> final(self).has(contact.id@, contact.addr),
            r == BucketResult::Success ==> bucket_has(final(self).buckets@[final(self).spec_bucket_of(contact.id@)], contact.id@, contact.addr),
            r == BucketResult::Success ==> exists|g: Option<(Seq<u8>, SockAddr)>| #[trigger] table_kept_but(*old(self), *final(self), contact.id@, g),
            r != BucketResult::Success ==> forall|i: int| 0 <= i < old(self).buckets@.len() ==> (#[trigger] final(self).buckets@[i]).live@ == old(self).buckets@[i].live@,
            r != BucketResult::Success ==> forall|id: Seq<u8>, addr: SockAddr| held_replaceable(*final(self), id, addr) ==> #[trigger] held_replaceable(*old(self), id, addr),
            fresh_contact(*old(self), contact.id@, contact.addr) && must_split(*old(self), contact.id@) ==> r == BucketResult::RequireSplit
                && final(self).buckets@ == old(self).buckets@,
            fresh_contact(*old(self), contact.id@, contact.addr) && !must_split(*old(self), contact.id@) ==> r != BucketResult::RequireSplit
                && placed_fresh(*old(self), *final(self), contact.id@, contact.addr, r == BucketResult::Success),
            held_extra(*old(self), contact.id@, contact.addr) && !old(self).router_nodes@.contains(contact.addr)
                && old(self).buckets@[old(self).spec_bucket_of(contact.id@)].live@.len() < 8 ==> r == BucketResult::Success
                && promoted(*old(self), *final(self), contact.id@, contact.addr),
            old(self).router_nodes@.contains(contact.addr) || contact.id@ == old(self).own_id@ || (old(self).has_id(contact.id@) && !old(self).has(contact.id@, contact.addr)) ==> final(self).buckets@ == old(self).buckets@,
            live_has(*old(self), contact.id@, contact.addr) && !old(self).router_nodes@.contains(contact.addr) ==> r == BucketResult::Success
                && same_sizes(*old(self), *final(self)),
            final(self).buckets@[final(self).spec_bucket_of(contact.id@)].live@.len() == 0 ==> r == BucketResult::Fail && (old(self).router_nodes@.contains(contact.addr) || contact.id@ == old(self).own_id@ || (old(self).has_id(contact.id@) && !old(self).has(contact.id@, contact.addr))),
            forall|id: Seq<u8>, addr: SockAddr| #[trigger] final(self).has(id, addr) ==> old(self).has(id, addr) || (id == contact.id@ && addr == contact.addr),
            r != BucketResult::Success ==> forall|id: Seq<u8>, addr: SockAddr| old(self).has(id, addr) && id != contact.id@ ==> #[trigger] final(self).has(id, addr),
            r == BucketResult::Fail ==> forall|id: Seq<u8>, addr: SockAddr| old(self).has(id, addr) ==> #[trigger] final(self).has(id, addr),
            r == BucketResult::RequireSplit ==> old(self).spec_bucket_of(contact.id@) == old(self).buckets@.len() - 1
                && old(self).buckets@.len() < 159
                && final(self).buckets@[final(self).buckets@.len() - 1].live@.len() == 8,
            old(self).router_nodes@.contains(contact.addr) || contact.id@ == old(self).own_id@ || (old(self).has_id(contact.id@) && !old(self).has(contact.id@, contact.addr)) ==> r == BucketResult::Fail,
            r == BucketResult::Fail ==> old(self).router_nodes@.contains(contact.addr) || contact.id@ == old(self).own_id@ || (old(self).has_id(contact.id@) && !old(self).has(contact.id@, contact.addr)) || bucket_full(final(self).buckets@[final(self).spec_bucket_of(contact.id@)]),
    {
        if contains_addr(&self.router_nodes, &contact.addr) {
            return BucketResult::Fail;
        }
        // Don't add ourselves
        if self.own_id.same(contact.id) {
            return BucketResult::Fail;
        }
        let bucket_no = self.find_bucket(contact.id);
        let bucket_count = self.buckets.len();
        let can_split = bucket_no + 1 == bucket_count && bucket_count < 159;
        let ghost old_buckets = self.buckets@;
        let ghost b0 = self.buckets@[bucket_no as int];
        proof {
            assert(bucket_ok(b0, self.own_id@, bucket_count as int, bucket_no as int));
            self.lemma_has_in_own_bucket(contact.id@, contact.addr);
        }
        let r = insert_into(&mut self.buckets[bucket_no], contact, can_split);
        proof {
            let own = self.own_id@;
            let k = bucket_no as int;
            let nb = self.buckets@[k];
            let count = bucket_count as int;
            assert forall|j: int| 0 <= j < nb.live@.len() implies bucket_index(own, count, (#[trigger] nb.live@[j]).id@) == k && nb.live@[j].id@ != own by {
                if bucket_has(b0, nb.live@[j].id@, nb.live@[j].addr) {
                    lemma_bucket_has_placed(b0, own, count, k, nb.live@[j].id@, nb.live@[j].addr);
                }
            }
            assert forall|j: int| 0 <= j < nb.extra@.len() implies bucket_index(own, count, (#[trigger] nb.extra@[j]).id@) == k && nb.extra@[j].id@ != own by {
                if bucket_has(b0, nb.extra@[j].id@, nb.extra@[j].addr) {
                    lemma_bucket_has_placed(b0, own, count, k, nb.extra@[j].id@, nb.extra@[j].addr);
                }
            }
            assert forall|i: int| 0 <= i < self.buckets@.len() implies bucket_ok(#[trigger] self.buckets@[i], own, count, i) by {
                if i != k {
                    assert(self.buckets@[i] == old_buckets[i]);
                }
            }
            assert forall|id: Seq<u8>, addr: SockAddr| #[trigger] self.has(id, addr) implies old(self).has(id, addr) || (id == contact.id@ && addr == contact.addr) by {
                let i = choose|i: int| 0 <= i < self.buckets@.len() && bucket_has(#[trigger] self.buckets@[i], id, addr);
                if i != k {
                    assert(bucket_has(old_buckets[i], id, addr));
                } else {
                    if seq_has(nb.live@, id, addr) {
                        let j = choose|j: int| 0 <= j < nb.live@.len() && (#[trigger] nb.live@[j]).id@ == id && nb.live@[j].addr == addr;
                        if bucket_has(b0, id, addr) {
                            assert(bucket_has(old_buckets[k], id, addr));
                        }
                    } else {
                        let j = choose|j: int| 0 <= j < nb.extra@.len() && (#[trigger] nb.extra@[j]).id@ == id && nb.extra@[j].addr == addr;
                        if bucket_has(b0, id, addr) {
                            assert(bucket_has(old_buckets[k], id, addr));
                        }
                    }
                }
            }
            if r != BucketResult::Success {
                assert forall|id: Seq<u8>, addr: SockAddr| old(self).has(id, addr) && id != contact.id@ implies #[trigger] self.has(id, addr) by {
                    let i = choose|i: int| 0 <= i < old_buckets.len() && bucket_has(#[trigger] old_buckets[i], id, addr);
                    if i != k {
                        assert(bucket_has(self.buckets@[i], id, addr));
                    } else {
                        assert(bucket_has(nb, id, addr));
                    }
                }
            }
            if r == BucketResult::Fail {
                assert forall|id: Seq<u8>, addr: SockAddr| old(self).has(id, addr) implies #[trigger] self.has(id, addr) by {
                    let i = choose|i: int| 0 <= i < old_buckets.len() && bucket_has(#[trigger] old_buckets[i], id, addr);
                    if i != k {
                        assert(bucket_has(self.buckets@[i], id, addr));
                    } else {
                        assert(bucket_has(nb, id, addr));
                    }
                }
            }
            if old(self).has_id(contact.id@) && !old(self).has(contact.id@, contact.addr) {
                assert(bucket_has_id(b0, contact.id@) && !bucket_has(b0, contact.id@, contact.addr));
                assert(self.buckets@ =~= old_buckets.update(k, nb));
            }
            if live_has(*old(self), contact.id@, contact.addr) {
                let i = choose|i: int| 0 <= i < old_buckets.len() && seq_has(#[trigger] old_buckets[i].live@, contact.id@, contact.addr);
                assert(bucket_ok(old_buckets[i], own, count, i));
                let j = choose|j: int| 0 <= j < old_buckets[i].live@.len() && (#[trigger] old_buckets[i].live@[j]).id@ == contact.id@ && old_buckets[i].live@[j].addr == contact.addr;
                assert(bucket_index(own, count, old_buckets[i].live@[j].id@) == i);
                assert(i == k);
                assert(seq_has(b0.live@, contact.id@, contact.addr));
                assert forall|i2: int| 0 <= i2 < old_buckets.len() implies (#[trigger] self.buckets@[i2]).live@.len() == old_buckets[i2].live@.len()
                    && self.buckets@[i2].extra@ == old_buckets[i2].extra@ by {
                    if i2 != k {
                        assert(self.buckets@[i2] == old_buckets[i2]);
                    }
                }
            }
            if r != BucketResult::Success {
                assert forall|i: int| 0 <= i < old_buckets.len() implies (#[trigger] self.buckets@[i]).live@ == old_buckets[i].live@ by {
                    if i != k {
                        assert(self.buckets@[i] == old_buckets[i]);
                    }
                }
                assert forall|id: Seq<u8>, addr: SockAddr| held_replaceable(*self, id, addr) implies #[trigger] held_replaceable(*old(self), id, addr) by {
                    let i = choose|i: int| 0 <= i < self.buckets@.len() && #[trigger] replaceable(self.buckets@[i], id, addr);
                    if i != k {
                        assert(self.buckets@[i] == old_buckets[i]);
                        assert(replaceable(old(self).buckets@[i], id, addr));
                    } else {
                        if !(exists|j: int| 0 <= j < nb.live@.len() && (#[trigger] nb.live@[j]).id@ == id && nb.live@[j].addr == addr
                            && nb.live@[j].spec_fail_count() > 0) {
                            let j = choose|j: int| 0 <= j < nb.extra@.len() && (#[trigger] nb.extra@[j]).id@ == id && nb.extra@[j].addr == addr
                                && nb.extra@[j].timeout_count is None;
                            assert(b0.extra@.contains(nb.extra@[j]));
                            let m = choose|m: int| 0 <= m < b0.extra@.len() && b0.extra@[m] == nb.extra@[j];
                            assert(b0.extra@[m].id@ == id);
                        }
                        assert(replaceable(old(self).buckets@[k], id, addr));
                    }
                }
            }
            if r == BucketResult::Success {
                assert(bucket_has(self.buckets@[k], contact.id@, contact.addr));
                let g = choose|g: Option<(Seq<u8>, SockAddr)>| #[trigger] kept_but(b0, nb, contact.id@, g);
                assert forall|id: Seq<u8>, addr: SockAddr| old(self).has(id, addr) && id != contact.id@ && g != Some((id, addr)) implies #[trigger] self.has(id, addr) by {
                    let i = choose|i: int| 0 <= i < old_buckets.len() && bucket_has(#[trigger] old_buckets[i], id, addr);
                    if i != k {
                        assert(bucket_has(self.buckets@[i], id, addr));
                    } else {
                        assert(bucket_has(nb, id, addr));
                    }
                }
                if g is Some {
                    let p = g.unwrap();
                    assert(replaceable(old(self).buckets@[k], p.0, p.1));
                }
                assert forall|id: Seq<u8>, addr: SockAddr| live_has(*old(self), id, addr) && id != contact.id@ && g != Some((id, addr)) implies #[trigger] live_has(*self, id, addr) by {
                    let i = choose|i: int| 0 <= i < old_buckets.len() && seq_has(#[trigger] old_buckets[i].live@, id, addr);
                    if i != k {
                        assert(self.buckets@[i] == old_buckets[i]);
                        assert(seq_has(self.buckets@[i].live@, id, addr));
                    } else {
                        assert(seq_has(nb.live@, id, addr));
                    }
                }
                assert(table_kept_but(*old(self), *self, contact.id@, g));
            }
        }
        r
    }

    /// Adds a contact to the table and returns whether it is now held.
    ///
    /// The node's own id, a router address and a known id arriving from
    /// another address are refused. A fresh contact is appended to the live
    /// list of its bucket while that list has room. When the list is full and
    /// the bucket is the last one, with fewer than 159 buckets, the bucket is
    /// split by the next bit of the id and the add is tried again. Otherwise
    /// the contact becomes a replacement candidate or takes the place of a
    /// live contact that timed out. After splitting, a trailing bucket with no
    /// live contact is dropped (see `added_fresh`). A replacement candidate
    /// added again while its bucket's live list has room moves to the end of
    /// that list (see `promoted`).
    pub fn add_contact(&mut self, contact: &ContactRef<'_>) -> (r: bool)
        requires
            old(self).wf(),
        ensures
            final(self).wf(),
            final(self).own_id == old(self).own_id,
            final(self).router_nodes@ == old(self).router_nodes@,
            r ==> final(self).has(contact.id@, contact.addr),
            forall|id: Seq<u8>, addr: SockAddr| #[trigger] final(self).has(id, addr) ==> old(self).has(id, addr) || (id == contact.id@ && addr == contact.addr),
            old(self).router_nodes@.contains(contact.addr) || contact.id@ == old(self).own_id@ || (old(self).has_id(contact.id@) && !old(self).has(contact.id@, contact.addr)) ==> !r,
            r ==> exists|g: Option<(Seq<u8>, SockAddr)>| #[trigger] kept_all_but(*old(self), *final(self), contact.id@, g),
            !r ==> forall|id: Seq<u8>, addr: SockAddr| live_has(*old(self), id, addr) && id != contact.id@ ==> #[trigger] live_has(*final(self), id, addr),
            old(self).router_nodes@.contains(contact.addr) || contact.id@ == old(self).own_id@ || (old(self).has_id(contact.id@) && !old(self).has(contact.id@, contact.addr)) ==> final(self).buckets@ == old(self).buckets@,
            live_has(*old(self), contact.id@, contact.addr) && !old(self).router_nodes@.contains(contact.addr) ==> r
                && same_sizes(*old(self), *final(self)),
            !r ==> old(self).router_nodes@.contains(contact.addr) || contact.id@ == old(self).own_id@ || (old(self).has_id(contact.id@) && !old(self).has(contact.id@, contact.addr)) || bucket_full(final(self).buckets@[final(self).spec_bucket_of(contact.id@)]),
            fresh_contact(*old(self), contact.id@, contact.addr) ==> added_fresh(*old(self), *final(self), contact.id@, contact.addr, r),
            held_extra(*old(self), contact.id@, contact.addr) && !old(self).router_nodes@.contains(contact.addr)
                && old(self).buckets@[old(self).spec_bucket_of(contact.id@)].live@.len() < 8 ==> r
                && promoted(*old(self), *final(self), contact.id@, contact.addr),
    {
        let ghost t0_buckets = self.buckets@;
        let mut result = self.add_contact_impl(contact);
        let ghost cid = contact.id@;
        let ghost caddr = contact.addr;
        let ghost fresh = fresh_contact(*old(self), cid, caddr);
        let ghost mut chain: Seq<RoutingTable> = seq![*old(self)];
        let ghost mut tp: RoutingTable = *self;
        proof {
            if result != BucketResult::Success {
                lemma_live_same(*old(self), *self);
            }
            if result == BucketResult::Success {
                let g = choose|g: Option<(Seq<u8>, SockAddr)>| #[trigger] table_kept_but(*old(self), *self, contact.id@, g);
                if g is Some {
                    let p = g.unwrap();
                    let i = choose|i: int| 0 <= i < old(self).buckets@.len() && #[trigger] replaceable(old(self).buckets@[i], p.0, p.1);
                    lemma_replaceable_held(*old(self), i, p.0, p.1);
                    assert(held_replaceable(*old(self), p.0, p.1));
                }
                assert(kept_all_but(*old(self), *self, contact.id@, g));
            }
        }
        loop
            invariant
                old(self).wf(),
                self.wf(),
                self.own_id == old(self).own_id,
                self.router_nodes@ == old(self).router_nodes@,
                result == BucketResult::RequireSplit ==> self.spec_bucket_of(contact.id@) == self.buckets@.len() - 1
                    && self.buckets@.len() < 159
                    && self.buckets@[self.buckets@.len() - 1].live@.len() == 8,
                result == BucketResult::Success ==> self.has(contact.id@, contact.addr),
                forall|id: Seq<u8>, addr: SockAddr| #[trigger] self.has(id, addr) ==> old(self).has(id, addr) || (id == contact.id@ && addr == contact.addr),
                old(self).router_nodes@.contains(contact.addr) || contact.id@ == old(self).own_id@ || (old(self).has_id(contact.id@) && !old(self).has(contact.id@, contact.addr)) ==> result == BucketResult::Fail,
                result == BucketResult::Fail ==> old(self).router_nodes@.contains(contact.addr) || contact.id@ == old(self).own_id@ || (old(self).has_id(contact.id@) && !old(self).has(contact.id@, contact.addr)) || bucket_full(self.buckets@[self.spec_bucket_of(contact.id@)]),
                result != BucketResult::Success ==> forall|id: Seq<u8>, addr: SockAddr| live_has(*old(self), id, addr) && id != contact.id@ ==> #[trigger] live_has(*self, id, addr),
                result == BucketResult::Success ==> exists|g: Option<(Seq<u8>, SockAddr)>| #[trigger] kept_all_but(*old(self), *self, contact.id@, g),
                result != BucketResult::Success ==> forall|id: Seq<u8>, addr: SockAddr| held_replaceable(*self, id, addr) ==> #[trigger] held_replaceable(*old(self), id, addr),
                old(self).router_nodes@.contains(contact.addr) || contact.id@ == old(self).own_id@ || (old(self).has_id(contact.id@) && !old(self).has(contact.id@, contact.addr)) ==> self.buckets@ == old(self).buckets@,
                live_has(*old(self), contact.id@, contact.addr) && !old(self).router_nodes@.contains(contact.addr) ==> result == BucketResult::Success
                    && same_sizes(*old(self), *self),
                cid == contact.id@,
                caddr == contact.addr,
                fresh == fresh_contact(*old(self), cid, caddr),
                held_extra(*old(self), cid, caddr) && !old(self).router_nodes@.contains(caddr)
                    && old(self).buckets@[old(self).spec_bucket_of(cid)].live@.len() < 8 ==> result == BucketResult::Success
                    && promoted(*old(self), *self, cid, caddr),
                fresh ==> chain.len() >= 1 && same_table(chain[0], *old(self)),
                fresh ==> forall|j: int| 0 <= j < chain.len() - 1 ==> must_split(#[trigger] chain[j], cid) && split_of(chain[j], chain[j + 1]),
                fresh && result == BucketResult::RequireSplit ==> fresh_contact(*self, cid, caddr) && same_table(chain.last(), *self),
                fresh && result != BucketResult::RequireSplit ==> !must_split(chain.last(), cid)
                    && placed_fresh(chain.last(), tp, cid, caddr, result == BucketResult::Success)
                    && (chain.len() == 1 ==> same_table(*self, tp))
                    && (chain.len() > 1 ==> dropped_empty_last(tp, *self)),
            decreases 159 - self.buckets@.len(), if result == BucketResult::RequireSplit { 1int } else { 0int },
        {
            match result {
                BucketResult::Success => {
                    proof {
                        if fresh {
                            assert(split_chain(chain, cid));
                            assert(placed_fresh(chain.last(), tp, cid, caddr, true));
                        }
                    }
                    return true;
                },
                BucketResult::Fail => {
                    proof {
                        if fresh {
                            assert(split_chain(chain, cid));
                            assert(placed_fresh(chain.last(), tp, cid, caddr, false));
                        }
                    }
                    return false;
                },
                BucketResult::RequireSplit => {},
            }
            let ghost t1 = *self;
            self.split_bucket();
            proof {
                if fresh {
                    let c0 = chain;
                    assert(must_split(t1, cid));
                    chain = chain.push(*self);
                    assert forall|j: int| 0 <= j < chain.len() - 1 implies must_split(#[trigger] chain[j], cid) && split_of(chain[j], chain[j + 1]) by {
                        if j < c0.len() - 1 {
                            assert(chain[j] == c0[j] && chain[j + 1] == c0[j + 1]);
                        } else {
                            assert(chain[j] == c0.last());
                            assert(chain[j + 1] == *self);
                        }
                    }
                    lemma_same_ids(t1, *self);
                    assert(fresh_contact(*self, cid, caddr));
                }
                assert forall|id: Seq<u8>, addr: SockAddr| held_replaceable(*self, id, addr) implies #[trigger] held_replaceable(*old(self), id, addr) by {
                    let i = choose|i: int| 0 <= i < self.buckets@.len() && #[trigger] replaceable(self.buckets@[i], id, addr);
                    assert(held_replaceable(t1, id, addr));
                }
            }
            let last = self.buckets.len() - 1;
            if self.buckets[last].live.len() > Bucket::MAX_LEN {
                proof {
                    assert(bucket_ok(self.buckets@[last as int], self.own_id@, self.buckets@.len() as int, last as int));
                }
                continue;
            }
            let ghost t2 = *self;
            proof {
                assert(!(self.router_nodes@.contains(contact.addr) || contact.id@ == self.own_id@ || (self.has_id(contact.id@) && !self.has(contact.id@, contact.addr)))) by {
                    if self.has_id(contact.id@) && !self.has(contact.id@, contact.addr) {
                        let i = choose|i: int| 0 <= i < self.buckets@.len() && bucket_has_id(#[trigger] self.buckets@[i], contact.id@);
                        let b = self.buckets@[i];
                        let a = if seq_has_id(b.live@, contact.id@) {
                            let j = choose|j: int| 0 <= j < b.live@.len() && (#[trigger] b.live@[j]).id@ == contact.id@;
                            assert(bucket_has(b, contact.id@, b.live@[j].addr));
                            b.live@[j].addr
                        } else {
                            let j = choose|j: int| 0 <= j < b.extra@.len() && (#[trigger] b.extra@[j]).id@ == contact.id@;
                            assert(bucket_has(b, contact.id@, b.extra@[j].addr));
                            b.extra@[j].addr
                        };
                        assert(self.has(contact.id@, a));
                        assert(old(self).has(contact.id@, a));
                        assert(old(self).has_id(contact.id@)) by {
                            let i2 = choose|i2: int| 0 <= i2 < old(self).buckets@.len() && bucket_has(#[trigger] old(self).buckets@[i2], contact.id@, a);
                            let b2 = old(self).buckets@[i2];
                            if seq_has(b2.live@, contact.id@, a) {
                                let j = choose|j: int| 0 <= j < b2.live@.len() && (#[trigger] b2.live@[j]).id@ == contact.id@ && b2.live@[j].addr == a;
                                assert(seq_has_id(b2.live@, contact.id@));
                            } else {
                                let j = choose|j: int| 0 <= j < b2.extra@.len() && (#[trigger] b2.extra@[j]).id@ == contact.id@ && b2.extra@[j].addr == a;
                                assert(seq_has_id(b2.extra@, contact.id@));
                            }
                            assert(bucket_has_id(b2, contact.id@));
                        }
                        if old(self).has(contact.id@, contact.addr) {
                            old(self).lemma_one_addr(contact.id@, a, contact.addr);
                        }
                    }
                }
            }
            result = self.add_contact_impl(contact);
            proof {
                assert forall|id: Seq<u8>, addr: SockAddr| #[trigger] self.has(id, addr) implies old(self).has(id, addr) || (id == contact.id@ && addr == contact.addr) by {
                    if !(id == contact.id@ && addr == contact.addr) {
                        assert(t2.has(id, addr));
                        assert(t1.has(id, addr));
                    }
                }
                assert forall|id: Seq<u8>, addr: SockAddr| #[trigger] t2.has(id, addr) implies old(self).has(id, addr) || (id == contact.id@ && addr == contact.addr) by {
                    assert(t1.has(id, addr));
                }
                if result != BucketResult::Success {
                    lemma_live_same(t2, *self);
                } else {
                    let g = choose|g: Option<(Seq<u8>, SockAddr)>| #[trigger] table_kept_but(t2, *self, contact.id@, g);
                    lemma_compose_kept(*old(self), t2, *self, contact.id@, contact.addr, g);
                }
                if fresh {
                    assert(same_table(chain.last(), t2));
                    assert(fresh_contact(t2, cid, caddr));
                    if result != BucketResult::RequireSplit {
                        tp = *self;
                        assert(!must_split(t2, cid));
                        assert(placed_fresh(t2, tp, cid, caddr, result == BucketResult::Success));
                    }
                }
            }
            let ghost t_before_pop = *self;
            let last = self.buckets.len() - 1;
            if self.buckets[last].live.len() == 0 {
                let ghost t3 = self.buckets@;
                let ghost t3s = *self;
                let ghost bo = self.spec_bucket_of(contact.id@);
                self.buckets.pop();
                proof {
                    let own = self.own_id@;
                    let c1 = t3.len() as int;
                    assert(c1 >= 2);
                    assert forall|i: int| 0 <= i < self.buckets@.len() implies bucket_ok(#[trigger] self.buckets@[i], own, c1 - 1, i) by {
                        assert(self.buckets@[i] == t3[i]);
                        assert(bucket_ok(t3[i], own, c1, i));
                        lemma_recount(t3[i], own, c1, c1 - 1, i);
                    }
                    assert forall|id: Seq<u8>, addr: SockAddr| #[trigger] self.has(id, addr) implies old(self).has(id, addr) || (id == contact.id@ && addr == contact.addr) by {
                        let i = choose|i: int| 0 <= i < self.buckets@.len() && bucket_has(#[trigger] self.buckets@[i], id, addr);
                        assert(t3[i] == self.buckets@[i]);
                        assert(bucket_has(t3s.buckets@[i], id, addr));
                        assert(t3s.has(id, addr));
                    }
                    if result == BucketResult::Success || (result == BucketResult::Fail && bucket_full(t3[bo])) {
                        assert(bo != c1 - 1);
                        assert(self.buckets@[bo] == t3[bo]);
                        assert(self.spec_bucket_of(contact.id@) == bo);
                    }
                    if result == BucketResult::Success {
                        assert(bucket_has(self.buckets@[bo], contact.id@, contact.addr));
                    }
                    lemma_live_pop(t3s, *self);
                    assert forall|id: Seq<u8>, addr: SockAddr| held_replaceable(*self, id, addr) implies #[trigger] held_replaceable(t3s, id, addr) by {
                        let i = choose|i: int| 0 <= i < self.buckets@.len() && #[trigger] replaceable(self.buckets@[i], id, addr);
                        assert(t3[i] == self.buckets@[i]);
                        assert(replaceable(t3s.buckets@[i], id, addr));
                    }
                    if result == BucketResult::Success {
                        let g = choose|g: Option<(Seq<u8>, SockAddr)>| #[trigger] kept_all_but(*old(self), t3s, contact.id@, g);
                        assert(kept_all_but(*old(self), *self, contact.id@, g));
                    }
                }
            }
            proof {
                if fresh && result != BucketResult::RequireSplit {
                    assert(chain.len() > 1);
                    assert(t_before_pop.buckets@.len() >= 1);
                    assert(dropped_empty_last(tp, *self));
                }
                if fresh && result == BucketResult::RequireSplit {
                    assert(self.buckets@ == t_before_pop.buckets@);
                    assert(same_table(chain.last(), *self));
                }
            }
        }
    }
}

/// Number of live contacts of the buckets.
pub open spec fn live_count(bs: Seq<Bucket>) -> nat
    decreases bs.len(),
{
    if bs.len() == 0 {
        0
    } else {
        live_count(bs.drop_last()) + bs.last().live@.len()
    }
}

/// Number of replacement candidates of the buckets.
pub open spec fn extra_count(bs: Seq<Bucket>) -> nat
    decreases bs.len(),
{
    if bs.len() == 0 {
        0
    } else {
        extra_count(bs.drop_last()) + bs.last().extra@.len()
    }
}

proof fn lemma_counts_bounded(bs: Seq<Bucket>)
    requires
        forall|i: int| 0 <= i < bs.len() ==> (#[trigger] bs[i]).live@.len() <= 8 && bs[i].extra@.len() <= 8,
    ensures
        live_count(bs) <= 8 * bs.len(),
        extra_count(bs) <= 8 * bs.len(),
    decreases bs.len(),
{
    if bs.len() > 0 {
        assert forall|i: int| 0 <= i < bs.drop_last().len() implies (#[trigger] bs.drop_last()[i]).live@.len() <= 8 && bs.drop_last()[i].extra@.len() <= 8 by {
            assert(bs.drop_last()[i] == bs[i]);
        }
        lemma_counts_bounded(bs.drop_last());
    }
}

impl RoutingTable {
    /// For the first bucket not updated for fifteen minutes (which of them
    /// are is the clock's answer), marks it updated and asks for a ping of
    /// its most failed contact (the last among equals, live ones first) if
    /// the bucket is full, else for a lookup of a random id with as many
    /// leading zeros as the bucket's index. `None` when no bucket is stale
    /// or the stale one is empty. The contacts do not change.
    pub fn next_refresh(&mut self) -> (r: Option<ClientRequest>)
        requires
            old(self).wf(),
        ensures
            final(self).wf(),
            final(self).own_id == old(self).own_id,
            final(self).router_nodes@ == old(self).router_nodes@,
            final(self).buckets@.len() == old(self).buckets@.len(),
            forall|i: int|
                0 <= i < final(self).buckets@.len() ==> (#[trigger] final(self).buckets@[i]).live@
                    == old(self).buckets@[i].live@ && final(self).buckets@[i].extra@
                    == old(self).buckets@[i].extra@,
            refresh_pick(*old(self), r),
    {
        let n = self.buckets.len();
        let mut b: usize = 0;
        while b < n
            invariant
                n == self.buckets@.len(),
                b <= n,
            decreases n - b,
        {
            if self.buckets[b].need_refresh() {
                break;
            }
            b = b + 1;
        }
        if b == n {
            return None;
        }
        let ghost before = self.buckets@;
        self.buckets[b].last_updated = now();
        proof {
            assert forall|i: int| 0 <= i < self.buckets@.len() implies (#[trigger] self.buckets@[i]).live@
                == before[i].live@ && self.buckets@[i].extra@ == before[i].extra@ by {}
            assert forall|i: int| 0 <= i < self.buckets@.len() implies bucket_ok(
                #[trigger] self.buckets@[i],
                self.own_id@,
                self.buckets@.len() as int,
                i,
            ) by {
                assert(bucket_ok(before[i], self.own_id@, before.len() as int, i));
            }
        }
        let c: Contact = match self.buckets[b].most_failed() {
            None => {
                return None;
            },
            Some(c) => *c,
        };
        if self.buckets[b].is_full() {
            Some(ClientRequest::Ping { id: c.id, addr: c.addr })
        } else {
            let id = NodeId::gen_lz(b);
            Some(ClientRequest::Bootstrap { target: id })
        }
    }

    /// Number of live contacts.
    pub fn len(&self) -> (r: usize)
        requires
            self.wf(),
        ensures
            r == live_count(self.buckets@),
    {
        let mut n: usize = 0;
        let mut i: usize = 0;
        proof {
            lemma_counts_bounded(self.buckets@);
        }
        while i < self.buckets.len()
            invariant
                self.wf(),
                i <= self.buckets@.len(),
                n == live_count(self.buckets@.take(i as int)),
                live_count(self.buckets@) <= 8 * 159,
            decreases self.buckets@.len() - i,
        {
            proof {
                assert(self.buckets@.take(i + 1).drop_last() =~= self.buckets@.take(i as int));
                lemma_counts_bounded(self.buckets@.take(i + 1));
                assert(bucket_ok(self.buckets@[i as int], self.own_id@, self.buckets@.len() as int, i as int));
            }
            n = n + self.buckets[i].live.len();
            i = i + 1;
        }
        assert(self.buckets@.take(self.buckets@.len() as int) =~= self.buckets@);
        n
    }

    /// Number of replacement candidates.
    pub fn len_extra(&self) -> (r: usize)
        requires
            self.wf(),
        ensures
            r == extra_count(self.buckets@),
    {
        let mut n: usize = 0;
        let mut i: usize = 0;
        while i < self.buckets.len()
            invariant
                self.wf(),
                i <= self.buckets@.len(),
                n == extra_count(self.buckets@.take(i as int)),
            decreases self.buckets@.len() - i,
        {
            proof {
                assert(self.buckets@.take(i + 1).drop_last() =~= self.buckets@.take(i as int));
                assert forall|k: int| 0 <= k < self.buckets@.take(i + 1).len() implies (#[trigger] self.buckets@.take(i + 1)[k]).live@.len() <= 8 && self.buckets@.take(i + 1)[k].extra@.len() <= 8 by {
                    assert(bucket_ok(self.buckets@[k], self.own_id@, self.buckets@.len() as int, k));
                }
                lemma_counts_bounded(self.buckets@.take(i + 1));
            }
            n = n + self.buckets[i].extra.len();
            i = i + 1;
        }
        assert(self.buckets@.take(self.buckets@.len() as int) =~= self.buckets@);
        n
    }

    /// No bucket holds a live contact.
    pub fn is_empty(&self) -> (r: bool)
        ensures
            r == (forall|i: int| 0 <= i < self.buckets@.len() ==> (#[trigger] self.buckets@[i]).live@.len() == 0),
    {
        let mut i: usize = 0;
        while i < self.buckets.len()
            invariant
                i <= self.buckets@.len(),
                forall|k: int| 0 <= k < i ==> (#[trigger] self.buckets@[k]).live@.len() == 0,
            decreases self.buckets@.len() - i,
        {
            if self.buckets[i].live.len() != 0 {
                return false;
            }
            i = i + 1;
        }
        true
    }

    /// The live contact with this id, if any.
    pub fn find_contact(&self, id: &NodeId) -> (r: Option<&Contact>)
        requires
            self.wf(),
        ensures
            r matches Some(c) ==> c.id@ == id@ && self.buckets@[self.spec_bucket_of(id@)].live@.contains(*c),
            r is None ==> !seq_has_id(self.buckets@[self.spec_bucket_of(id@)].live@, id@),
    {
        let idx = self.find_bucket(id);
        match find_id(&self.buckets[idx].live, id) {
            Some(j) => {
                proof {
                    assert(self.buckets@[idx as int].live@[j as int] == self.buckets[idx as int].live@[j as int]);
                }
                Some(&self.buckets[idx].live[j])
            },
            None => None,
        }
    }

    /// Whether the table holds a contact, live or extra, with this id.
    pub fn knows_id(&self, id: &NodeId) -> (r: bool)
        requires
            self.wf(),
        ensures
            r == self.has_id(id@),
    {
        proof {
            self.lemma_has_in_own_bucket(id@, SockAddr::V4(0, 0));
        }
        let idx = self.find_bucket(id);
        find_id(&self.buckets[idx].live, id).is_some() || find_id(&self.buckets[idx].extra, id).is_some()
    }

    /// Counts a timeout of the live contact with this id, if any.
    pub fn failed(&mut self, id: &NodeId)
        requires
            old(self).wf(),
        ensures
            final(self).wf(),
            failed_effect(*old(self), *final(self), id@),
    {
        let idx = self.find_bucket(id);
        let ghost old_buckets = self.buckets@;
        match find_id(&self.buckets[idx].live, id) {
            Some(j) => {
                let mut c = self.buckets[idx].live[j];
                c.timed_out();
                self.buckets[idx].live.set(j, c);
                proof {
                    self.lemma_one_live_update(*old(self), idx as int, j as int, c);
                    lemma_unique_live(old_buckets[idx as int], j as int);
                }
            },
            None => {},
        }
    }

    /// Marks the live contact with this id as alive and answering.
    pub fn heard_from(&mut self, id: &NodeId)
        requires
            old(self).wf(),
        ensures
            final(self).wf(),
            heard_from_effect(*old(self), *final(self), id@),
    {
        let idx = self.find_bucket(id);
        let ghost old_buckets = self.buckets@;
        match find_id(&self.buckets[idx].live, id) {
            Some(j) => {
                let mut c = self.buckets[idx].live[j];
                c.status = crate::dht::contact::ContactStatus::from_bits(
                    crate::dht::contact::ContactStatus::ALIVE | crate::dht::contact::ContactStatus::QUERIED,
                );
                c.clear_timeout();
                self.buckets[idx].live.set(j, c);
                self.buckets[idx].last_updated = now();
                proof {
                    self.lemma_one_live_update(*old(self), idx as int, j as int, c);
                    lemma_unique_live(old_buckets[idx as int], j as int);
                }
            },
            None => {},
        }
    }

    /// Changing one live contact in place, keeping its id and address,
    /// keeps the invariant and the contacts held.
    proof fn lemma_one_live_update(&self, t0: RoutingTable, k: int, j: int, c: Contact)
        requires
            t0.wf(),
            0 <= k < t0.buckets@.len(),
            0 <= j < t0.buckets@[k].live@.len(),
            c.id@ == t0.buckets@[k].live@[j].id@,
            c.addr == t0.buckets@[k].live@[j].addr,
            self.own_id == t0.own_id,
            self.router_nodes@ == t0.router_nodes@,
            self.buckets@.len() == t0.buckets@.len(),
            forall|i: int| 0 <= i < t0.buckets@.len() && i != k ==> #[trigger] self.buckets@[i] == t0.buckets@[i],
            self.buckets@[k].live@ == t0.buckets@[k].live@.update(j, c),
            self.buckets@[k].extra@ == t0.buckets@[k].extra@,
        ensures
            self.wf(),
            forall|id2: Seq<u8>, addr: SockAddr| #[trigger] self.has(id2, addr) == t0.has(id2, addr),
    {
        let b0 = t0.buckets@[k];
        let b1 = self.buckets@[k];
        assert(bucket_ok(b0, t0.own_id@, t0.buckets@.len() as int, k));
        lemma_ids_update(b0.live@, j, c);
        assert(ids(b0.live@).update(j, c.id@) =~= ids(b0.live@));
        assert forall|i: int| 0 <= i < self.buckets@.len() implies bucket_ok(#[trigger] self.buckets@[i], self.own_id@, self.buckets@.len() as int, i) by {
            if i != k {
                assert(bucket_ok(t0.buckets@[i], t0.own_id@, t0.buckets@.len() as int, i));
            } else {
                assert forall|m: int| 0 <= m < b1.live@.len() implies bucket_index(self.own_id@, self.buckets@.len() as int, (#[trigger] b1.live@[m]).id@) == k && b1.live@[m].id@ != self.own_id@ by {
                    assert(b1.live@[m].id@ == b0.live@[m].id@);
                }
            }
        }
        assert forall|id2: Seq<u8>, addr: SockAddr| bucket_has(b1, id2, addr) == bucket_has(b0, id2, addr) by {
            if seq_has(b1.live@, id2, addr) {
                let m = choose|m: int| 0 <= m < b1.live@.len() && (#[trigger] b1.live@[m]).id@ == id2 && b1.live@[m].addr == addr;
                assert(b0.live@[m].id@ == id2 && b0.live@[m].addr == addr);
            }
            if seq_has(b0.live@, id2, addr) {
                let m = choose|m: int| 0 <= m < b0.live@.len() && (#[trigger] b0.live@[m]).id@ == id2 && b0.live@[m].addr == addr;
                assert(b1.live@[m].id@ == id2 && b1.live@[m].addr == addr);
            }
        }
        assert forall|id2: Seq<u8>, addr: SockAddr| #[trigger] self.has(id2, addr) == t0.has(id2, addr) by {
            if self.has(id2, addr) {
                let i = choose|i: int| 0 <= i < self.buckets@.len() && bucket_has(#[trigger] self.buckets@[i], id2, addr);
                assert(bucket_has(t0.buckets@[i], id2, addr));
            }
            if t0.has(id2, addr) {
                let i = choose|i: int| 0 <= i < t0.buckets@.len() && bucket_has(#[trigger] t0.buckets@[i], id2, addr);
                assert(bucket_has(self.buckets@[i], id2, addr));
            }
        }
    }
}

/// The plain values of a contact seen by reference.
pub open spec fn pair_of<'a>(r: ContactRef<'a>) -> (Seq<u8>, SockAddr) {
    (r.id@, r.addr)
}

/// The answering live contacts of the buckets at distance `i` on either
/// side of bucket `bn`, the lower one first.
pub open spec fn ring(bs: Seq<Bucket>, bn: int, i: int) -> Seq<(Seq<u8>, SockAddr)> {
    (if i <= bn {
        answering(bs[bn - i].live@)
    } else {
        Seq::empty()
    }) + (if bn + i < bs.len() {
        answering(bs[bn + i].live@)
    } else {
        Seq::empty()
    })
}

/// The contacts gathered from the rings `i`, `i + 1`, ... around bucket
/// `bn`, while fewer than `count` contacts are at hand (`have` of them
/// now) and rings are left.
pub open spec fn gather(bs: Seq<Bucket>, bn: int, i: int, have: int, count: int) -> Seq<(Seq<u8>, SockAddr)>
    decreases bs.len() - i,
{
    if 0 <= bn < bs.len() && 1 <= i && have < count && (i <= bn || bn + i < bs.len()) {
        ring(bs, bn, i) + gather(bs, bn, i + 1, have + ring(bs, bn, i).len(), count)
    } else {
        Seq::empty()
    }
}

/// The distance of a contact from `target`.
pub open spec fn dist_key<'a>(target: Seq<u8>, r: ContactRef<'a>) -> Seq<u8> {
    seq_xor(target, r.id@)
}

/// Ascending distance from `target`.
pub open spec fn sorted_by_dist<'a>(target: Seq<u8>, s: Seq<ContactRef<'a>>) -> bool {
    forall|i: int, j: int| 0 <= i < j < s.len() ==> !seq_lt(dist_key(target, #[trigger] s[j]), dist_key(target, #[trigger] s[i]))
}

proof fn lemma_lt_trans(a: Seq<u8>, b: Seq<u8>, c: Seq<u8>)
    requires
        a.len() == b.len(),
        b.len() == c.len(),
        seq_lt(a, b),
        seq_lt(b, c),
    ensures
        seq_lt(a, c),
{
    let k1 = choose|k: int| 0 <= k < a.len() && k < b.len() && a[k] < b[k] && forall|j: int| 0 <= j < k ==> a[j] == b[j];
    let k2 = choose|k: int| 0 <= k < b.len() && k < c.len() && b[k] < c[k] && forall|j: int| 0 <= j < k ==> b[j] == c[j];
    let k = if k1 < k2 { k1 } else { k2 };
    assert(a[k] < c[k]);
    assert(forall|j: int| 0 <= j < k ==> a[j] == c[j]);
}

/// Sorts `out` by ascending distance of the ids from `target`.
fn sort_by_distance<'a>(target: &NodeId, out: &mut Vec<ContactRef<'a>>)
    ensures
        final(out)@.to_multiset() == old(out)@.to_multiset(),
        sorted_by_dist(target@, final(out)@),
{
    broadcast use vstd::seq_lib::group_to_multiset_ensures;
    let mut sorted: Vec<ContactRef<'a>> = Vec::new();
    while out.len() > 0
        invariant
            sorted_by_dist(target@, sorted@),
            sorted@.to_multiset().add(out@.to_multiset()) == old(out)@.to_multiset(),
        decreases out@.len(),
    {
        let ghost before = out@;
        let x = out.pop().unwrap();
        proof {
            assert(before =~= out@.push(x));
        }
        let kx = target.xor(x.id);
        let mut p: usize = 0;
        while p < sorted.len() && !kx.less_than(&target.xor(sorted[p].id))
            invariant
                p <= sorted@.len(),
                kx@ == dist_key(target@, x),
                forall|q: int| 0 <= q < p ==> !seq_lt(kx@, dist_key(target@, #[trigger] sorted@[q])),
            decreases sorted@.len() - p,
        {
            p = p + 1;
        }
        let ghost old_sorted = sorted@;
        sorted.insert(p, x);
        proof {
            broadcast use vstd::multiset::group_multiset_axioms;
            assert(before.to_multiset() == out@.push(x).to_multiset());
            vstd::seq_lib::to_multiset_build(out@, x);
            vstd::seq_lib::to_multiset_insert(old_sorted, p as int, x);
            assert(sorted@ == old_sorted.insert(p as int, x));
            assert(sorted@.to_multiset().add(out@.to_multiset()) =~= old_sorted.to_multiset().add(before.to_multiset()));
            assert forall|i: int, j: int| 0 <= i < j < sorted@.len() implies !seq_lt(dist_key(target@, #[trigger] sorted@[j]), dist_key(target@, #[trigger] sorted@[i])) by {
                if i < p && j == p {
                    assert(sorted@[i] == old_sorted[i]);
                } else if i == p && j > p {
                    assert(sorted@[j] == old_sorted[j - 1]);
                    assert(seq_lt(kx@, dist_key(target@, old_sorted[p as int])));
                    if p < j - 1 {
                        assert(!seq_lt(dist_key(target@, old_sorted[j - 1]), dist_key(target@, old_sorted[p as int])));
                    }
                    if seq_lt(dist_key(target@, sorted@[j]), kx@) {
                        lemma_lt_trans(dist_key(target@, sorted@[j]), kx@, dist_key(target@, old_sorted[p as int]));
                    }
                } else if j < p {
                    assert(sorted@[i] == old_sorted[i] && sorted@[j] == old_sorted[j]);
                } else if i < p && j > p {
                    assert(sorted@[i] == old_sorted[i] && sorted@[j] == old_sorted[j - 1]);
                } else {
                    assert(sorted@[i] == old_sorted[i - 1] && sorted@[j] == old_sorted[j - 1]);
                }
            }
        }
    }
    *out = sorted;
}

/// What gathering the `count` contacts nearest to `target` leaves when
/// `before` was held: the answering live contacts of the target's bucket
/// and of the buckets around it, with those held, sorted by distance and
/// cut to `count`.
pub open spec fn closest_result<'a>(
    t: RoutingTable,
    target: Seq<u8>,
    before: Seq<ContactRef<'a>>,
    count: usize,
    after: Seq<ContactRef<'a>>,
) -> bool {
    let bn = t.spec_bucket_of(target);
    let first = answering(t.buckets@[bn].live@);
    let collected = before.map_values(|r: ContactRef<'a>| pair_of(r)) + first + gather(
        t.buckets@,
        bn,
        1,
        (before.len() + first.len()) as int,
        count as int,
    );
    exists|pre: Seq<ContactRef<'a>>, s: Seq<ContactRef<'a>>|
        pre.map_values(|r: ContactRef<'a>| pair_of(r)) == collected
            && s.to_multiset() == pre.to_multiset()
            && sorted_by_dist(target, s)
            && after == s.take(if count < s.len() { count as int } else { s.len() as int })
}

/// Some bucket of `bs` holds, among its live contacts, one with this id
/// and address that has not failed.
pub open spec fn buckets_answer(bs: Seq<Bucket>, x: (Seq<u8>, SockAddr)) -> bool {
    exists|m: int| 0 <= m < bs.len() && #[trigger] answers_for(bs[m].live@, x)
}

proof fn lemma_gather_answers(bs: Seq<Bucket>, bn: int, i: int, have: int, count: int)
    ensures
        forall|k: int| 0 <= k < gather(bs, bn, i, have, count).len() ==> buckets_answer(bs, #[trigger] gather(bs, bn, i, have, count)[k]),
    decreases bs.len() - i,
{
    let g = gather(bs, bn, i, have, count);
    if 0 <= bn < bs.len() && 1 <= i && have < count && (i <= bn || bn + i < bs.len()) {
        let rg = ring(bs, bn, i);
        let rest = gather(bs, bn, i + 1, have + rg.len(), count);
        lemma_gather_answers(bs, bn, i + 1, have + rg.len(), count);
        assert(g == rg + rest);
        let lo: Seq<(Seq<u8>, SockAddr)> = if i <= bn { answering(bs[bn - i].live@) } else { Seq::empty() };
        let hi: Seq<(Seq<u8>, SockAddr)> = if bn + i < bs.len() { answering(bs[bn + i].live@) } else { Seq::empty() };
        assert(rg == lo + hi);
        if i <= bn {
            law_answering_not_failed(bs[bn - i].live@);
        }
        if bn + i < bs.len() {
            law_answering_not_failed(bs[bn + i].live@);
        }
        assert forall|k: int| 0 <= k < g.len() implies buckets_answer(bs, #[trigger] g[k]) by {
            if k < lo.len() {
                assert(g[k] == lo[k]);
                assert(answers_for(bs[bn - i].live@, g[k]));
            } else if k < rg.len() {
                assert(g[k] == hi[k - lo.len()]);
                assert(answers_for(bs[bn + i].live@, g[k]));
            } else {
                assert(g[k] == rest[k - rg.len()]);
            }
        }
    }
}

/// The closest contacts a table hands out are answering ones: each is one
/// that was held before the call or a live contact of the table that has
/// not failed (a contact whose query timed out is never handed out).
pub proof fn law_find_closest_answering<'a>(
    t: RoutingTable,
    target: Seq<u8>,
    before: Seq<ContactRef<'a>>,
    count: usize,
    after: Seq<ContactRef<'a>>,
)
    requires
        t.wf(),
        closest_result(t, target, before, count, after),
    ensures
        forall|k: int|
            0 <= k < after.len() ==> before.map_values(|r: ContactRef<'a>| pair_of(r)).contains(pair_of(#[trigger] after[k]))
                || buckets_answer(t.buckets@, pair_of(after[k])),
{
    broadcast use vstd::seq_lib::group_to_multiset_ensures;

    let bn = t.spec_bucket_of(target);
    let first = answering(t.buckets@[bn].live@);
    let bp = before.map_values(|r: ContactRef<'a>| pair_of(r));
    let gth = gather(t.buckets@, bn, 1, (before.len() + first.len()) as int, count as int);
    let collected = bp + first + gth;
    let (pre, s) = choose|pre: Seq<ContactRef<'a>>, s: Seq<ContactRef<'a>>|
        pre.map_values(|r: ContactRef<'a>| pair_of(r)) == collected && s.to_multiset() == pre.to_multiset()
            && sorted_by_dist(target, s) && after == s.take(if count < s.len() { count as int } else { s.len() as int });
    law_answering_not_failed(t.buckets@[bn].live@);
    lemma_gather_answers(t.buckets@, bn, 1, (before.len() + first.len()) as int, count as int);
    assert forall|k: int| 0 <= k < after.len() implies bp.contains(pair_of(#[trigger] after[k]))
        || buckets_answer(t.buckets@, pair_of(after[k])) by {
        assert(after[k] == s[k]);
        assert(s.contains(s[k]));
        assert(s.to_multiset().count(s[k]) > 0);
        assert(pre.to_multiset().count(s[k]) > 0);
        assert(pre.contains(s[k]));
        let m = choose|m: int| 0 <= m < pre.len() && pre[m] == s[k];
        let pm = pre.map_values(|r: ContactRef<'a>| pair_of(r));
        assert(pm[m] == pair_of(after[k]));
        assert(pm.len() == pre.len());
        assert(collected.len() == bp.len() + first.len() + gth.len());
        if m < bp.len() {
            assert(collected[m] == bp[m]);
            assert(bp[m] == pair_of(after[k]));
        } else if m < bp.len() + first.len() {
            assert(collected[m] == first[m - bp.len()]);
            assert(answers_for(t.buckets@[bn].live@, first[m - bp.len()]));
        } else {
            let bf = bp + first;
            assert(bf.len() == bp.len() + first.len());
            assert(collected == bf + gth);
            assert(collected[m] == gth[m - bf.len()]);
            assert(buckets_answer(t.buckets@, gth[m - bf.len()]));
        }
    }
}

impl RoutingTable {
    /// Gathers the answering live contacts of the bucket of `target` and of
    /// the buckets around it (nearest first, until `out` holds `count` or no
    /// bucket is left), then leaves in `out` the `count` nearest to `target`
    /// of those and of what `out` held, in ascending order of distance.
    pub fn find_closest<'a>(&'a self, target: &NodeId, out: &mut Vec<ContactRef<'a>>, count: usize)
        requires
            self.wf(),
        ensures
            closest_result(*self, target@, old(out)@, count, final(out)@),
            forall|k: int|
                0 <= k < final(out)@.len() ==> old(out)@.map_values(|r: ContactRef<'a>| pair_of(r)).contains(
                    pair_of(#[trigger] final(out)@[k]),
                ) || buckets_answer(self.buckets@, pair_of(final(out)@[k])),
    {
        let ghost old_pairs = out@.map_values(|r: ContactRef<'a>| pair_of(r));
        let bucket_no = self.find_bucket(target);
        let ghost before0 = out@;
        self.buckets[bucket_no].get_contacts(out);
        let ghost bs = self.buckets@;
        let ghost bn = bucket_no as int;
        let ghost first = answering(bs[bn].live@);
        let ghost h0: int = (before0.len() + first.len()) as int;
        let ghost goal = old_pairs + first + gather(bs, bn, 1, h0, count as int);
        proof {
            assert(out@ =~= before0 + out@.skip(before0.len() as int));
            assert(out@.map_values(|r: ContactRef<'a>| pair_of(r)) =~= old_pairs + first);
            assert(out@.len() == h0);
        }
        let len = self.buckets.len();
        let mut i: usize = 1;
        while out.len() < count && (i <= bucket_no || bucket_no + i < len)
            invariant
                self.wf(),
                bs == self.buckets@,
                bn == bucket_no as int,
                0 <= bn < bs.len(),
                len == bs.len(),
                1 <= i <= len + 1,
                out@.map_values(|r: ContactRef<'a>| pair_of(r)) + gather(bs, bn, i as int, out@.len() as int, count as int) == goal,
            decreases len + 1 - i,
        {
            let ghost b1 = out@;
            let ghost r = ring(bs, bn, i as int);
            proof {
                assert(gather(bs, bn, i as int, out@.len() as int, count as int) == r + gather(bs, bn, i + 1, (out@.len() + r.len()) as int, count as int));
            }
            if i <= bucket_no {
                self.buckets[bucket_no - i].get_contacts(out);
            }
            let ghost b2 = out@;
            if bucket_no + i < len {
                self.buckets[bucket_no + i].get_contacts(out);
            }
            proof {
                assert(b2 =~= b1 + b2.skip(b1.len() as int));
                assert(out@ =~= b2 + out@.skip(b2.len() as int));
                assert(out@.map_values(|r: ContactRef<'a>| pair_of(r)) =~= b1.map_values(|r: ContactRef<'a>| pair_of(r)) + r);
                assert(out@.len() == b1.len() + r.len());
                assert((b1.map_values(|r: ContactRef<'a>| pair_of(r)) + r) + gather(bs, bn, i + 1, (b1.len() + r.len()) as int, count as int) =~= b1.map_values(|r: ContactRef<'a>| pair_of(r)) + (r + gather(bs, bn, i + 1, (b1.len() + r.len()) as int, count as int)));
            }
            i = i + 1;
        }
        proof {
            assert(gather(bs, bn, i as int, out@.len() as int, count as int) =~= Seq::<(Seq<u8>, SockAddr)>::empty());
            assert(out@.map_values(|r: ContactRef<'a>| pair_of(r)) =~= goal);
        }
        let ghost pre = out@;
        sort_by_distance(target, out);
        let ghost s = out@;
        out.truncate(count);
        proof {
            assert(out@ =~= s.take(if count < s.len() { count as int } else { s.len() as int }));
            assert(closest_result(*self, target@, old(out)@, count, out@));
            law_find_closest_answering(*self, target@, old(out)@, count, out@);
        }
    }
}

/// Whether `s` holds the address `a`.
pub fn contains_addr(s: &Vec<SockAddr>, a: &SockAddr) -> (r: bool)
    ensures
        r == s@.contains(*a),
{
    let mut i: usize = 0;
    while i < s.len()
        invariant
            i <= s@.len(),
            forall|k: int| 0 <= k < i ==> s@[k] != *a,
        decreases s@.len() - i,
    {
        if s[i] == *a {
            return true;
        }
        i = i + 1;
    }
    false
}

/// A table holds a contact with an id exactly when it holds one with that
/// id at some address.
pub proof fn lemma_has_id_iff(t: RoutingTable, id: Seq<u8>)
    ensures
        t.has_id(id) <==> exists|a: SockAddr| t.has(id, a),
{
    if t.has_id(id) {
        let i = choose|i: int| 0 <= i < t.buckets@.len() && bucket_has_id(#[trigger] t.buckets@[i], id);
        let b = t.buckets@[i];
        if seq_has_id(b.live@, id) {
            let j = choose|j: int| 0 <= j < b.live@.len() && (#[trigger] b.live@[j]).id@ == id;
            assert(seq_has(b.live@, id, b.live@[j].addr));
            assert(t.has(id, b.live@[j].addr));
        } else {
            let j = choose|j: int| 0 <= j < b.extra@.len() && (#[trigger] b.extra@[j]).id@ == id;
            assert(seq_has(b.extra@, id, b.extra@[j].addr));
            assert(t.has(id, b.extra@[j].addr));
        }
    }
    if exists|a: SockAddr| t.has(id, a) {
        let a = choose|a: SockAddr| t.has(id, a);
        let i = choose|i: int| 0 <= i < t.buckets@.len() && bucket_has(#[trigger] t.buckets@[i], id, a);
        let b = t.buckets@[i];
        if seq_has(b.live@, id, a) {
            let j = choose|j: int| 0 <= j < b.live@.len() && (#[trigger] b.live@[j]).id@ == id && b.live@[j].addr == a;
            assert(seq_has_id(b.live@, id));
        } else {
            let j = choose|j: int| 0 <= j < b.extra@.len() && (#[trigger] b.extra@[j]).id@ == id && b.extra@[j].addr == a;
            assert(seq_has_id(b.extra@, id));
        }
        assert(bucket_has_id(t.buckets@[i], id));
    }
}

/// Tables that hold the same contacts hold the same ids.
pub proof fn lemma_same_ids(t0: RoutingTable, t1: RoutingTable)
    requires
        forall|id: Seq<u8>, a: SockAddr| #[trigger] t1.has(id, a) == t0.has(id, a),
    ensures
        forall|id: Seq<u8>| #[trigger] t1.has_id(id) == t0.has_id(id),
{
    assert forall|id: Seq<u8>| #[trigger] t1.has_id(id) == t0.has_id(id) by {
        lemma_has_id_iff(t0, id);
        lemma_has_id_iff(t1, id);
        if t0.has_id(id) {
            let a = choose|a: SockAddr| t0.has(id, a);
            assert(t1.has(id, a));
        }
        if t1.has_id(id) {
            let a = choose|a: SockAddr| t1.has(id, a);
            assert(t0.has(id, a));
        }
    }
}


/// Changing one bucket changes the counts of live contacts and of
/// replacement candidates by what that bucket gains or loses.
pub proof fn law_counts_update(bs: Seq<Bucket>, k: int, b: Bucket)
    requires
        0 <= k < bs.len(),
    ensures
        live_count(bs.update(k, b)) == live_count(bs) - bs[k].live@.len() + b.live@.len(),
        extra_count(bs.update(k, b)) == extra_count(bs) - bs[k].extra@.len() + b.extra@.len(),
    decreases bs.len(),
{
    if k == bs.len() - 1 {
        assert(bs.update(k, b).drop_last() =~= bs.drop_last());
    } else {
        law_counts_update(bs.drop_last(), k, b);
        assert(bs.update(k, b).drop_last() =~= bs.drop_last().update(k, b));
    }
}

/// Splitting the last bucket keeps the counts of live contacts and of
/// replacement candidates; so does dropping a last bucket without live
/// contacts, for the live ones.
pub proof fn law_counts_split(t0: RoutingTable, t1: RoutingTable)
    requires
        t0.buckets@.len() >= 1,
        split_of(t0, t1),
    ensures
        live_count(t1.buckets@) == live_count(t0.buckets@),
        extra_count(t1.buckets@) == extra_count(t0.buckets@),
{
    let k = t0.buckets@.len() - 1;
    let own = t0.own_id@;
    let b = t0.buckets@[k];
    lemma_filter_split_len(b.live@, own, k);
    lemma_filter_split_len(b.extra@, own, k);
    let p1 = t1.buckets@.drop_last();
    let p0 = t0.buckets@.drop_last();
    assert forall|i: int| 0 <= i < p0.len() implies p1.drop_last()[i] == p0[i] by {
        assert(t1.buckets@[i] == t0.buckets@[i]);
    }
    assert(p1.drop_last() =~= p0);
    assert(p1.last() == t1.buckets@[k]);
    assert(t1.buckets@.last() == t1.buckets@[k + 1]);
    assert(live_count(t1.buckets@) == live_count(p1) + t1.buckets@[k + 1].live@.len());
    assert(live_count(p1) == live_count(p0) + t1.buckets@[k].live@.len());
    assert(live_count(t0.buckets@) == live_count(p0) + b.live@.len());
    assert(extra_count(t1.buckets@) == extra_count(p1) + t1.buckets@[k + 1].extra@.len());
    assert(extra_count(p1) == extra_count(p0) + t1.buckets@[k].extra@.len());
    assert(extra_count(t0.buckets@) == extra_count(p0) + b.extra@.len());
}

/// Dropping a last bucket without live contacts keeps the count of live
/// contacts.
pub proof fn law_live_count_drop_empty(t0: RoutingTable, t1: RoutingTable)
    requires
        dropped_empty_last(t0, t1),
    ensures
        live_count(t1.buckets@) == live_count(t0.buckets@),
{
}

/// The contacts that stay and those that move in a split add up to the
/// bucket's.
proof fn lemma_filter_split_len(s: Seq<Contact>, own: Seq<u8>, k: int)
    ensures
        s.filter(stays(own, k)).len() + s.filter(moves(own, k)).len() == s.len(),
    decreases s.len(),
{
    reveal(Seq::filter);
    if s.len() > 0 {
        lemma_filter_split_len(s.drop_last(), own, k);
    }
}

} // verus!
