//! The requests a DHT node keeps running, one kind each: a bootstrap
//! lookup, a lookup for peers, an announce, and a ping.
use crate::dht::contact::SockAddr;
use crate::dht::id::NodeId;
use crate::dht::lookups::{seeded, GetPeersRequest, PingRequest, PING_TIMEOUT};
use crate::dht::msg::{Response, TxnId};
use crate::dht::table::{closest_result, failed_effect, RoutingTable};
use crate::dht::traversal::{body_nodes, reply_table_effect, stale, failed_chain, pruned, reply_effect, txn_without, Lookup, Request};
use crate::dht::contact::ContactRef;
use vstd::prelude::*;

verus! {

/// A lookup for the peers of an info hash whose end is an announce to the
/// nodes that answered it.
pub struct AnnounceRequest {
    pub inner: GetPeersRequest,
}

/// One running request.
pub enum DhtRequest {
    Bootstrap(Lookup),
    GetPeers(GetPeersRequest),
    Announce(AnnounceRequest),
    Ping(PingRequest),
}

/// Pruning a lookup at time `now`: what [`Lookup::prune`] promises of the
/// lookup and of the table.
pub open spec fn lookup_pruned(l0: Lookup, l1: Lookup, t0: RoutingTable, t1: RoutingTable, now: u64) -> bool {
    &&& pruned(l0, l1, now, t0)
    &&& failed_chain(
        t0,
        t1,
        l0.txns.spec_pending().filter(|e: (TxnId, Request)| stale(e, now, l0.txns.spec_timeout(), t0)),
    )
}

/// Pruning a ping at time `now`: it is given up, and its node counted
/// failed, once unanswered for longer than its timeout.
pub open spec fn ping_pruned(p0: PingRequest, p1: PingRequest, t0: RoutingTable, t1: RoutingTable, now: u64) -> bool {
    &&& p1.node == p0.node
    &&& p1.txn_id == p0.txn_id
    &&& p1.sent == p0.sent
    &&& p1.done == (p0.done || p0.sent + PING_TIMEOUT < now)
    &&& p1.done && !p0.done ==> failed_effect(t0, t1, p0.node.id@)
    &&& !(p1.done && !p0.done) ==> t1 == t0
}

/// A reply handled by a lookup (`check_id` says whether the replier's id
/// is checked): what [`Lookup::handle_reply`] promises of the lookup, of
/// and of the answer.
pub open spec fn lookup_replied(
    l0: Lookup,
    l1: Lookup,
    check_id: bool,
    resp: Response,
    addr: SockAddr,
    handled: bool,
) -> bool {
    let m = reply_effect(l0.txns.spec_pending(), l0.nodes@, l0.target@, check_id, resp.txn_id.0, resp.id@, resp.body@, addr);
    &&& l1.target == l0.target
    &&& l1.branch_factor == l0.branch_factor
    &&& l1.txns.spec_pending() == txn_without(l0.txns.spec_pending(), resp.txn_id.0)
    &&& l1.nodes@ == m.nodes
    &&& handled == m.handled
}

/// A reply handled by a lookup for peers: the lookup's part, the peers the
/// reply carries handed back, and the token it hands out kept for the
/// replier's address.
pub open spec fn get_peers_replied(
    g0: GetPeersRequest,
    g1: GetPeersRequest,
    resp: Response,
    addr: SockAddr,
    handled: bool,
    peers: Seq<SockAddr>,
) -> bool {
    let m = reply_effect(
        g0.lookup.txns.spec_pending(),
        g0.lookup.nodes@,
        g0.lookup.target@,
        true,
        resp.txn_id.0,
        resp.id@,
        resp.body@,
        addr,
    );
    &&& lookup_replied(g0.lookup, g1.lookup, true, resp, addr, handled)
    &&& peers == m.peers
    &&& g1.tokens.spec_entries() == match m.token {
        Some(t) => g0.tokens.spec_entries().push((addr, t)),
        None => g0.tokens.spec_entries(),
    }
}

/// A reply handled by a ping: whether it was to this ping, and then the
/// ping is over, with the replier added to the table when it is the node
/// pinged, and counted failed when not.
pub open spec fn ping_replied(
    p0: PingRequest,
    p1: PingRequest,
    t0: RoutingTable,
    t1: RoutingTable,
    resp: Response,
    addr: SockAddr,
    handled: bool,
) -> bool {
    &&& handled == (resp.txn_id == p0.txn_id)
    &&& !handled ==> p1 == p0 && t1 == t0
    &&& handled ==> p1.done && p1.node == p0.node && p1.txn_id == p0.txn_id
    &&& handled && !(p0.node.id@ == resp.id@ && p0.node.addr == addr) ==> failed_effect(t0, t1, resp.id@)
    &&& handled && p0.node.id@ == resp.id@ && p0.node.addr == addr ==> forall|id2: Seq<u8>, a2: SockAddr|
        #[trigger] t1.has(id2, a2) ==> t0.has(id2, a2) || (id2 == resp.id@ && a2 == addr)
}

impl AnnounceRequest {
    /// A lookup of `info_hash` to announce to (see [`GetPeersRequest::new`]).
    pub fn new(info_hash: &NodeId, own_id: &NodeId, table: &RoutingTable) -> (r: Self)
        requires
            table.wf(),
        ensures
            r.inner.lookup.target == *info_hash,
            r.inner.lookup.own_id == *own_id,
            r.inner.lookup.branch_factor == 3,
            r.inner.lookup.txns.spec_pending().len() == 0,
            r.inner.tokens.spec_entries().len() == 0,
            exists|c: Seq<ContactRef>|
                closest_result(*table, info_hash@, Seq::empty(), 8, c) && seeded(r.inner.lookup.nodes@, c, table.router_nodes@, false),
    {
        AnnounceRequest { inner: GetPeersRequest::new(info_hash, own_id, table) }
    }

    /// Gives up on the queries whose timeout is out at time `now`.
    pub fn prune(&mut self, now: u64, table: &mut RoutingTable)
        requires
            old(table).wf(),
        ensures
            final(table).wf(),
            final(table).own_id == old(table).own_id,
            forall|id2: Seq<u8>, a: SockAddr| #[trigger] final(table).has(id2, a) == old(table).has(id2, a),
            lookup_pruned(old(self).inner.lookup, final(self).inner.lookup, *old(table), *final(table), now),
            final(self).inner.tokens.spec_entries() == old(self).inner.tokens.spec_entries(),
    {
        self.inner.prune(now, table);
    }

    /// Handles a reply as the lookup for peers does, giving whether it
    /// belonged to this lookup and the peers it carries.
    pub fn handle_reply(&mut self, resp: &Response, addr: &SockAddr, table: &mut RoutingTable) -> (r: (bool, Vec<SockAddr>))
        requires
            old(table).wf(),
        ensures
            final(table).wf(),
            final(table).own_id == old(table).own_id,
            forall|id: Seq<u8>, a: SockAddr| #[trigger] final(table).has(id, a) ==> old(table).has(id, a)
                || body_nodes(resp.body@).contains((id, a)),
            get_peers_replied(old(self).inner, final(self).inner, *resp, *addr, r.0, r.1@),
            !r.0 ==> final(self).inner.lookup.txns.spec_pending() == old(self).inner.lookup.txns.spec_pending(),
            reply_table_effect(*old(table), *final(table), old(self).inner.lookup.txns.spec_pending(), true, resp.txn_id.0, resp.id@, resp.body@),
    {
        self.inner.handle_reply(resp, addr, table)
    }
}

impl DhtRequest {
    /// A bootstrap: a lookup of `target` (router nodes of random ids when
    /// the table knows fewer than three contacts).
    pub fn new_bootstrap(target: &NodeId, own_id: &NodeId, table: &RoutingTable) -> (r: Self)
        requires
            table.wf(),
        ensures
            r matches DhtRequest::Bootstrap(l) && l.target == *target && l.own_id == *own_id
                && l.branch_factor == 3 && l.txns.spec_pending().len() == 0
                && exists|c: Seq<ContactRef>|
                closest_result(*table, target@, Seq::empty(), 8, c) && seeded(l.nodes@, c, table.router_nodes@, true),
    {
        DhtRequest::Bootstrap(Lookup::new(target, own_id, table, true))
    }

    /// A lookup for the peers of `info_hash`.
    pub fn new_get_peers(info_hash: &NodeId, own_id: &NodeId, table: &RoutingTable) -> (r: Self)
        requires
            table.wf(),
        ensures
            r matches DhtRequest::GetPeers(g) && g.lookup.target == *info_hash && g.lookup.own_id == *own_id
                && g.lookup.branch_factor == 3 && g.lookup.txns.spec_pending().len() == 0
                && g.tokens.spec_entries().len() == 0
                && exists|c: Seq<ContactRef>|
                closest_result(*table, info_hash@, Seq::empty(), 8, c) && seeded(g.lookup.nodes@, c, table.router_nodes@, false),
    {
        DhtRequest::GetPeers(GetPeersRequest::new(info_hash, own_id, table))
    }

    /// A lookup for the peers of `info_hash` followed by an announce.
    pub fn new_announce(info_hash: &NodeId, own_id: &NodeId, table: &RoutingTable) -> (r: Self)
        requires
            table.wf(),
        ensures
            r matches DhtRequest::Announce(a) && a.inner.lookup.target == *info_hash
                && a.inner.lookup.own_id == *own_id && a.inner.lookup.branch_factor == 3
                && a.inner.lookup.txns.spec_pending().len() == 0 && a.inner.tokens.spec_entries().len() == 0
                && exists|c: Seq<ContactRef>|
                closest_result(*table, info_hash@, Seq::empty(), 8, c) && seeded(a.inner.lookup.nodes@, c, table.router_nodes@, false),
    {
        DhtRequest::Announce(AnnounceRequest::new(info_hash, own_id, table))
    }

    /// A ping, made at time `now`, of the node `id` at `addr`.
    pub fn new_ping(own_id: &NodeId, id: &NodeId, addr: &SockAddr, now: u64) -> (r: Self)
        ensures
            r matches DhtRequest::Ping(p) && p.own_id == *own_id && p.node.id == *id && p.node.addr == *addr
                && p.txn_id == TxnId(0) && p.sent == now && !p.done,
    {
        DhtRequest::Ping(PingRequest::new(own_id, id, addr, now))
    }

    /// Gives up, at time `now`, on what went unanswered for too long, as
    /// the request of each kind does.
    pub fn prune(&mut self, now: u64, table: &mut RoutingTable)
        requires
            old(table).wf(),
        ensures
            final(table).wf(),
            final(table).own_id == old(table).own_id,
            forall|id2: Seq<u8>, a: SockAddr| #[trigger] final(table).has(id2, a) == old(table).has(id2, a),
            match (*old(self), *final(self)) {
                (DhtRequest::Bootstrap(l0), DhtRequest::Bootstrap(l1)) => lookup_pruned(l0, l1, *old(table), *final(table), now),
                (DhtRequest::GetPeers(g0), DhtRequest::GetPeers(g1)) => lookup_pruned(
                    g0.lookup,
                    g1.lookup,
                    *old(table),
                    *final(table),
                    now,
                ) && g1.tokens.spec_entries() == g0.tokens.spec_entries(),
                (DhtRequest::Announce(a0), DhtRequest::Announce(a1)) => lookup_pruned(
                    a0.inner.lookup,
                    a1.inner.lookup,
                    *old(table),
                    *final(table),
                    now,
                ) && a1.inner.tokens.spec_entries() == a0.inner.tokens.spec_entries(),
                (DhtRequest::Ping(p0), DhtRequest::Ping(p1)) => ping_pruned(p0, p1, *old(table), *final(table), now),
                _ => false,
            },
    {
        match self {
            DhtRequest::Bootstrap(l) => l.prune(now, table),
            DhtRequest::GetPeers(g) => g.prune(now, table),
            DhtRequest::Announce(a) => a.prune(now, table),
            DhtRequest::Ping(p) => p.prune(now, table),
        }
    }

    /// Handles a reply as the request of each kind does; gives whether it
    /// belonged to this request, and the peers it carries for a lookup for
    /// peers or an announce (none for a bootstrap or a ping).
    pub fn handle_reply(&mut self, resp: &Response, addr: &SockAddr, table: &mut RoutingTable) -> (r: (bool, Vec<SockAddr>))
        requires
            old(table).wf(),
        ensures
            final(table).wf(),
            final(table).own_id == old(table).own_id,
            forall|id: Seq<u8>, a: SockAddr| #[trigger] final(table).has(id, a) ==> old(table).has(id, a)
                || body_nodes(resp.body@).contains((id, a)) || (id == resp.id@ && a == *addr),
            match *old(self) {
                DhtRequest::Bootstrap(l) => reply_table_effect(*old(table), *final(table), l.txns.spec_pending(), false, resp.txn_id.0, resp.id@, resp.body@),
                DhtRequest::GetPeers(g) => reply_table_effect(*old(table), *final(table), g.lookup.txns.spec_pending(), true, resp.txn_id.0, resp.id@, resp.body@),
                DhtRequest::Announce(a) => reply_table_effect(*old(table), *final(table), a.inner.lookup.txns.spec_pending(), true, resp.txn_id.0, resp.id@, resp.body@),
                DhtRequest::Ping(_) => true,
            },
            !r.0 ==> *final(self) == *old(self) || match (*old(self), *final(self)) {
                (DhtRequest::Bootstrap(l0), DhtRequest::Bootstrap(l1)) => l1.txns.spec_pending() == l0.txns.spec_pending() && l1.nodes@ == l0.nodes@,
                (DhtRequest::GetPeers(g0), DhtRequest::GetPeers(g1)) => g1.lookup.txns.spec_pending() == g0.lookup.txns.spec_pending() && g1.lookup.nodes@ == g0.lookup.nodes@ && g1.tokens.spec_entries() == g0.tokens.spec_entries(),
                (DhtRequest::Announce(a0), DhtRequest::Announce(a1)) => a1.inner.lookup.txns.spec_pending() == a0.inner.lookup.txns.spec_pending() && a1.inner.lookup.nodes@ == a0.inner.lookup.nodes@ && a1.inner.tokens.spec_entries() == a0.inner.tokens.spec_entries(),
                _ => false,
            },
            match (*old(self), *final(self)) {
                (DhtRequest::Bootstrap(l0), DhtRequest::Bootstrap(l1)) => r.1@.len() == 0 && lookup_replied(
                    l0,
                    l1,
                    false,
                    *resp,
                    *addr,
                    r.0,
                ),
                (DhtRequest::GetPeers(g0), DhtRequest::GetPeers(g1)) => get_peers_replied(g0, g1, *resp, *addr, r.0, r.1@),
                (DhtRequest::Announce(a0), DhtRequest::Announce(a1)) => get_peers_replied(
                    a0.inner,
                    a1.inner,
                    *resp,
                    *addr,
                    r.0,
                    r.1@,
                ),
                (DhtRequest::Ping(p0), DhtRequest::Ping(p1)) => r.1@.len() == 0 && ping_replied(
                    p0,
                    p1,
                    *old(table),
                    *final(table),
                    *resp,
                    *addr,
                    r.0,
                ),
                _ => false,
            },
    {
        match self {
            DhtRequest::Bootstrap(l) => {
                let out = l.handle_reply(false, resp, addr, table);
                (out.handled, Vec::new())
            },
            DhtRequest::GetPeers(g) => g.handle_reply(resp, addr, table),
            DhtRequest::Announce(a) => a.handle_reply(resp, addr, table),
            DhtRequest::Ping(p) => {
                let handled = p.handle_reply(resp, addr, table);
                (handled, Vec::new())
            },
        }
    }
}

} // verus!
