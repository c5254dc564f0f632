//! The state of a DHT node between two turns of its loop: its routing
//! table and the requests it keeps running, with the decisions the loop
//! takes on them. Sending and receiving stay with the caller.
use crate::dht::contact::{ContactRef, SockAddr};
use crate::dht::id::NodeId;
use crate::dht::lookups::{seeded, PING_TIMEOUT};
use crate::dht::msg::{Response, TxnId};
use crate::dht::requests::{get_peers_replied, lookup_replied, DhtRequest};
use crate::dht::table::{closest_result, lemma_same_ids, refresh_pick, ClientRequest, RoutingTable};
use crate::dht::traversal::{body_nodes, lemma_pruned_same_ids, pruned};
use crate::dht::contact::spec_to_ipv6;
use vstd::prelude::*;

verus! {

/// A DHT node: its id, its routing table and its running requests.
pub struct Dht {
    pub own_id: NodeId,
    pub table: RoutingTable,
    pub running: Vec<DhtRequest>,
}

/// What pruning at time `now`, against table `t`, does to a request, apart
/// from the table.
pub open spec fn request_pruned(r0: DhtRequest, r1: DhtRequest, now: u64, t: RoutingTable) -> bool {
    match (r0, r1) {
        (DhtRequest::Bootstrap(l0), DhtRequest::Bootstrap(l1)) => pruned(l0, l1, now, t),
        (DhtRequest::GetPeers(g0), DhtRequest::GetPeers(g1)) => pruned(g0.lookup, g1.lookup, now, t)
            && g1.tokens.spec_entries() == g0.tokens.spec_entries(),
        (DhtRequest::Announce(a0), DhtRequest::Announce(a1)) => pruned(a0.inner.lookup, a1.inner.lookup, now, t)
            && a1.inner.tokens.spec_entries() == a0.inner.tokens.spec_entries(),
        (DhtRequest::Ping(p0), DhtRequest::Ping(p1)) => {
            &&& p1.node == p0.node
            &&& p1.txn_id == p0.txn_id
            &&& p1.sent == p0.sent
            &&& p1.done == (p0.done || p0.sent + PING_TIMEOUT < now)
        },
        _ => false,
    }
}

/// What a reply does to a request, apart from the table: whether it was
/// handled there and the peers handed back.
pub open spec fn request_replied(
    r0: DhtRequest,
    r1: DhtRequest,
    resp: Response,
    addr: SockAddr,
    handled: bool,
    peers: Seq<SockAddr>,
) -> bool {
    match (r0, r1) {
        (DhtRequest::Bootstrap(l0), DhtRequest::Bootstrap(l1)) => peers.len() == 0 && lookup_replied(
            l0,
            l1,
            false,
            resp,
            addr,
            handled,
        ),
        (DhtRequest::GetPeers(g0), DhtRequest::GetPeers(g1)) => get_peers_replied(g0, g1, resp, addr, handled, peers),
        (DhtRequest::Announce(a0), DhtRequest::Announce(a1)) => get_peers_replied(
            a0.inner,
            a1.inner,
            resp,
            addr,
            handled,
            peers,
        ),
        (DhtRequest::Ping(p0), DhtRequest::Ping(p1)) => {
            &&& peers.len() == 0
            &&& handled == (resp.txn_id == p0.txn_id)
            &&& !handled ==> p1 == p0
            &&& handled ==> p1.done && p1.node == p0.node && p1.txn_id == p0.txn_id
        },
        _ => false,
    }
}

/// A bootstrap lookup of `target` for a node of id `own_id`, fresh from
/// table `t`.
pub open spec fn fresh_bootstrap(r: DhtRequest, target: NodeId, own_id: NodeId, t: RoutingTable) -> bool {
    r matches DhtRequest::Bootstrap(l) && l.target == target && l.own_id == own_id && l.branch_factor == 3
        && l.txns.spec_pending().len() == 0 && exists|c: Seq<ContactRef>|
        closest_result(t, target@, Seq::empty(), 8, c) && seeded(l.nodes@, c, t.router_nodes@, true)
}

/// A ping of node `id` at `addr`, made at time `now`, for a node of id
/// `own_id`.
pub open spec fn fresh_ping(r: DhtRequest, own_id: NodeId, id: NodeId, addr: SockAddr, now: u64) -> bool {
    r matches DhtRequest::Ping(p) && p.own_id == own_id && p.node.id == id && p.node.addr == addr
        && p.txn_id == TxnId(0) && p.sent == now && !p.done
}

impl Dht {
    /// The node's invariant: a well-formed table of the node's own id.
    pub open spec fn wf(&self) -> bool {
        self.table.wf() && self.table.own_id == self.own_id
    }

    /// A node of a random id that knows only the router nodes, running
    /// nothing.
    pub fn new(router_nodes: Vec<SockAddr>) -> (r: Self)
        ensures
            r.wf(),
            r.running@.len() == 0,
            r.table.buckets@.len() == 1,
            r.table.buckets@[0].live@.len() == 0,
            r.table.buckets@[0].extra@.len() == 0,
            forall|a: SockAddr| r.table.router_nodes@.contains(a) <==> exists|i: int|
                0 <= i < router_nodes@.len() && a == spec_to_ipv6(#[trigger] router_nodes@[i]),
    {
        let id = NodeId::gen();
        Dht { own_id: id, table: RoutingTable::new(id, router_nodes), running: Vec::new() }
    }

    /// Starts a bootstrap lookup of `target`.
    pub fn submit_refresh(&mut self, target: &NodeId)
        requires
            old(self).wf(),
        ensures
            final(self).wf(),
            final(self).own_id == old(self).own_id,
            final(self).table == old(self).table,
            final(self).running@.len() == old(self).running@.len() + 1,
            final(self).running@.drop_last() == old(self).running@,
            fresh_bootstrap(final(self).running@.last(), *target, old(self).own_id, old(self).table),
    {
        let r = DhtRequest::new_bootstrap(target, &self.own_id, &self.table);
        self.running.push(r);
    }

    /// Starts a ping, at time `now`, of the node `id` at `addr`.
    pub fn submit_ping(&mut self, id: &NodeId, addr: &SockAddr, now: u64)
        requires
            old(self).wf(),
        ensures
            final(self).wf(),
            final(self).own_id == old(self).own_id,
            final(self).table == old(self).table,
            final(self).running@.len() == old(self).running@.len() + 1,
            final(self).running@.drop_last() == old(self).running@,
            fresh_ping(final(self).running@.last(), old(self).own_id, *id, *addr, now),
    {
        let r = DhtRequest::new_ping(&self.own_id, id, addr, now);
        self.running.push(r);
    }

    /// Starts a lookup for the peers of `info_hash`.
    pub fn submit_get_peers(&mut self, info_hash: &NodeId)
        requires
            old(self).wf(),
        ensures
            final(self).wf(),
            final(self).own_id == old(self).own_id,
            final(self).table == old(self).table,
            final(self).running@.len() == old(self).running@.len() + 1,
            final(self).running@.drop_last() == old(self).running@,
            final(self).running@.last() matches DhtRequest::GetPeers(g) && g.lookup.target == *info_hash
                && g.lookup.own_id == old(self).own_id && g.lookup.branch_factor == 3
                && g.lookup.txns.spec_pending().len() == 0 && g.tokens.spec_entries().len() == 0
                && exists|c: Seq<ContactRef>|
                closest_result(old(self).table, info_hash@, Seq::empty(), 8, c) && seeded(
                    g.lookup.nodes@,
                    c,
                    old(self).table.router_nodes@,
                    false,
                ),
    {
        let r = DhtRequest::new_get_peers(info_hash, &self.own_id, &self.table);
        self.running.push(r);
    }

    /// Starts a lookup for the peers of `info_hash` followed by an
    /// announce.
    pub fn submit_announce(&mut self, info_hash: &NodeId)
        requires
            old(self).wf(),
        ensures
            final(self).wf(),
            final(self).own_id == old(self).own_id,
            final(self).table == old(self).table,
            final(self).running@.len() == old(self).running@.len() + 1,
            final(self).running@.drop_last() == old(self).running@,
            final(self).running@.last() matches DhtRequest::Announce(a) && a.inner.lookup.target == *info_hash
                && a.inner.lookup.own_id == old(self).own_id && a.inner.lookup.branch_factor == 3
                && a.inner.lookup.txns.spec_pending().len() == 0 && a.inner.tokens.spec_entries().len() == 0
                && exists|c: Seq<ContactRef>|
                closest_result(old(self).table, info_hash@, Seq::empty(), 8, c) && seeded(
                    a.inner.lookup.nodes@,
                    c,
                    old(self).table.router_nodes@,
                    false,
                ),
    {
        let r = DhtRequest::new_announce(info_hash, &self.own_id, &self.table);
        self.running.push(r);
    }

    /// Refreshes the table at time `now`: what the next stale bucket asks
    /// for (see [`RoutingTable::next_refresh`]) starts as a ping or a
    /// bootstrap lookup, and is handed back.
    pub fn refresh_step(&mut self, now: u64) -> (r: Option<ClientRequest>)
        requires
            old(self).wf(),
        ensures
            final(self).wf(),
            final(self).own_id == old(self).own_id,
            final(self).table.router_nodes@ == old(self).table.router_nodes@,
            final(self).table.buckets@.len() == old(self).table.buckets@.len(),
            forall|i: int|
                0 <= i < final(self).table.buckets@.len() ==> (#[trigger] final(self).table.buckets@[i]).live@
                    == old(self).table.buckets@[i].live@ && final(self).table.buckets@[i].extra@
                    == old(self).table.buckets@[i].extra@,
            refresh_pick(old(self).table, r),
            r is None ==> final(self).running@ == old(self).running@,
            r is Some ==> final(self).running@.len() == old(self).running@.len() + 1
                && final(self).running@.drop_last() == old(self).running@,
            r matches Some(ClientRequest::Ping { id, addr }) ==> fresh_ping(
                final(self).running@.last(),
                old(self).own_id,
                id,
                addr,
                now,
            ),
            r matches Some(ClientRequest::Bootstrap { target }) ==> fresh_bootstrap(
                final(self).running@.last(),
                target,
                old(self).own_id,
                final(self).table,
            ),
    {
        let r = self.table.next_refresh();
        match r {
            Some(ClientRequest::Ping { id, addr }) => self.submit_ping(&id, &addr, now),
            Some(ClientRequest::Bootstrap { target }) => self.submit_refresh(&target),
            None => {},
        }
        r
    }

    /// Prunes every running request at time `now` (see
    /// [`DhtRequest::prune`]).
    pub fn prune_running(&mut self, now: u64)
        requires
            old(self).wf(),
        ensures
            final(self).wf(),
            final(self).own_id == old(self).own_id,
            forall|id2: Seq<u8>, a: SockAddr| #[trigger] final(self).table.has(id2, a) == old(self).table.has(id2, a),
            final(self).running@.len() == old(self).running@.len(),
            forall|i: int|
                0 <= i < old(self).running@.len() ==> request_pruned(
                    old(self).running@[i],
                    #[trigger] final(self).running@[i],
                    now,
                    old(self).table,
                ),
    {
        let ghost old_running = self.running@;
        let ghost old_table = self.table;
        let n = self.running.len();
        let mut i: usize = 0;
        while i < n
            invariant
                n == old_running.len(),
                i <= n,
                self.running@.len() == n,
                self.table.wf(),
                self.table.own_id == self.own_id,
                self.own_id == old(self).own_id,
                old_table == old(self).table,
                old_running == old(self).running@,
                forall|id2: Seq<u8>, a: SockAddr| #[trigger] self.table.has(id2, a) == old_table.has(id2, a),
                forall|j: int| 0 <= j < i ==> request_pruned(old_running[j], #[trigger] self.running@[j], now, old_table),
                forall|j: int| i <= j < n ==> #[trigger] self.running@[j] == old_running[j],
            decreases n - i,
        {
            let ghost tb = self.table;
            self.running[i].prune(now, &mut self.table);
            proof {
                lemma_same_ids(old_table, tb);
                match (old_running[i as int], self.running@[i as int]) {
                    (DhtRequest::Bootstrap(l0), DhtRequest::Bootstrap(l1)) => lemma_pruned_same_ids(l0, l1, now, tb, old_table),
                    (DhtRequest::GetPeers(g0), DhtRequest::GetPeers(g1)) => lemma_pruned_same_ids(g0.lookup, g1.lookup, now, tb, old_table),
                    (DhtRequest::Announce(a0), DhtRequest::Announce(a1)) => lemma_pruned_same_ids(a0.inner.lookup, a1.inner.lookup, now, tb, old_table),
                    _ => {},
                }
            }
            i = i + 1;
        }
    }

    /// Hands a reply to the running requests in turn, until one handles
    /// it: gives its index (`None` when none did) and the peers it
    /// carries for that request.
    pub fn dispatch_response(&mut self, resp: &Response, addr: &SockAddr) -> (r: (Option<usize>, Vec<SockAddr>))
        requires
            old(self).wf(),
        ensures
            final(self).wf(),
            final(self).own_id == old(self).own_id,
            forall|id: Seq<u8>, a: SockAddr| #[trigger] final(self).table.has(id, a) ==> old(self).table.has(id, a)
                || body_nodes(resp.body@).contains((id, a)) || (id == resp.id@ && a == *addr),
            final(self).running@.len() == old(self).running@.len(),
            ({
                let k: int = match r.0 {
                    Some(k) => k as int,
                    None => old(self).running@.len() as int,
                };
                &&& k <= old(self).running@.len()
                &&& forall|j: int| 0 <= j < k ==> request_replied(
                    old(self).running@[j],
                    #[trigger] final(self).running@[j],
                    *resp,
                    *addr,
                    false,
                    Seq::empty(),
                )
                &&& forall|j: int| k < j < old(self).running@.len() ==> #[trigger] final(self).running@[j]
                    == old(self).running@[j]
            }),
            r.0 is None ==> r.1@.len() == 0,
            r.0 matches Some(k) ==> k < old(self).running@.len() && request_replied(
                old(self).running@[k as int],
                final(self).running@[k as int],
                *resp,
                *addr,
                true,
                r.1@,
            ),
    {
        let ghost old_running = self.running@;
        let ghost old_table = self.table;
        let n = self.running.len();
        let mut i: usize = 0;
        while i < n
            invariant
                n == old_running.len(),
                i <= n,
                self.running@.len() == n,
                self.table.wf(),
                self.table.own_id == self.own_id,
                self.own_id == old(self).own_id,
                old_table == old(self).table,
                old_running == old(self).running@,
                forall|id: Seq<u8>, a: SockAddr| #[trigger] self.table.has(id, a) ==> old_table.has(id, a)
                    || body_nodes(resp.body@).contains((id, a)) || (id == resp.id@ && a == *addr),
                forall|j: int| 0 <= j < i ==> request_replied(
                    old_running[j],
                    #[trigger] self.running@[j],
                    *resp,
                    *addr,
                    false,
                    Seq::empty(),
                ),
                forall|j: int| i <= j < n ==> #[trigger] self.running@[j] == old_running[j],
            decreases n - i,
        {
            let (handled, peers) = self.running[i].handle_reply(resp, addr, &mut self.table);
            if handled {
                return (Some(i), peers);
            }
            assert(peers@ =~= Seq::<SockAddr>::empty());
            i = i + 1;
        }
        (None, Vec::new())
    }
}

} // verus!
