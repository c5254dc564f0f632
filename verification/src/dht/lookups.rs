//! The lookups a DHT node runs: for peers of an info hash, and the
//! announce that follows one.
use crate::dht::contact::{ContactRef, SockAddr};
use crate::dht::id::NodeId;
use crate::dht::msg::{Response, TxnId};
use crate::dht::rpc::is_zero_id;
use crate::dht::table::{closest_result, failed_effect, RoutingTable};
use crate::dht::traversal::{
    body_nodes, expired, reply_table_effect, stale, failed_chain, has_flag, pruned, reply_effect, Request, txn_without, DhtNode, InvokeCursor, Lookup, ReplyOutcome, Transactions, ALIVE, INITIAL,
    MAX_ALIVE, NO_ID, QUERIED,
};
use vstd::prelude::*;

verus! {

/// The tokens nodes handed out, by address: the last one each gave.
#[derive(Debug)]
pub struct Tokens {
    entries: Vec<(SockAddr, Vec<u8>)>,
}

/// The token last handed out by `addr`.
pub open spec fn token_lookup(s: Seq<(SockAddr, Seq<u8>)>, addr: SockAddr) -> Option<Seq<u8>>
    decreases s.len(),
{
    if s.len() == 0 {
        None
    } else if s.last().0 == addr {
        Some(s.last().1)
    } else {
        token_lookup(s.drop_last(), addr)
    }
}

impl Tokens {
    /// The tokens, in the order they came.
    pub closed spec fn spec_entries(&self) -> Seq<(SockAddr, Seq<u8>)> {
        self.entries@.map_values(|e: (SockAddr, Vec<u8>)| (e.0, e.1@))
    }

    /// No token.
    pub fn new() -> (r: Self)
        ensures
            r.spec_entries().len() == 0,
    {
        Tokens { entries: Vec::new() }
    }

    /// Records the token `addr` handed out.
    pub fn insert(&mut self, addr: SockAddr, token: Vec<u8>)
        ensures
            final(self).spec_entries() == old(self).spec_entries().push((addr, token@)),
    {
        self.entries.push((addr, token));
        assert(self.spec_entries() =~= old(self).spec_entries().push((addr, token@)));
    }

    /// The token last handed out by `addr`.
    pub fn get(&self, addr: &SockAddr) -> (r: Option<&Vec<u8>>)
        ensures
            match r {
                Some(t) => token_lookup(self.spec_entries(), *addr) == Some(t@),
                None => token_lookup(self.spec_entries(), *addr) is None,
            },
    {
        let ghost es = self.spec_entries();
        let mut i = self.entries.len();
        assert(es.take(i as int) =~= es);
        while i > 0
            invariant
                i <= self.entries@.len(),
                es == self.spec_entries(),
                token_lookup(es, *addr) == token_lookup(es.take(i as int), *addr),
            decreases i,
        {
            proof {
                assert(es.take(i as int).drop_last() =~= es.take(i - 1));
            }
            if self.entries[i - 1].0 == *addr {
                return Some(&self.entries[i - 1].1);
            }
            i = i - 1;
        }
        None
    }
}

/// Whether a lookup's nodes are those the contacts `c` give, as nodes
/// met, followed (when there are fewer than three) by the router nodes as
/// nodes of unknown id (zero unless `random_ids`).
pub open spec fn seeded(nodes: Seq<DhtNode>, c: Seq<ContactRef>, routers: Seq<SockAddr>, random_ids: bool) -> bool {
    let extra = if c.len() < 3 { routers.len() } else { 0 };
    &&& nodes.len() == c.len() + extra
    &&& forall|i: int| 0 <= i < c.len() ==> #[trigger] nodes[i] == (DhtNode { id: *c[i].id, addr: c[i].addr, status: INITIAL })
    &&& forall|k: int|
        0 <= k < extra ==> {
            &&& (#[trigger] nodes[c.len() + k]).addr == routers[k]
            &&& nodes[c.len() + k].status == INITIAL | NO_ID
            &&& !random_ids ==> is_zero_id(nodes[c.len() + k].id@)
        }
}

impl Lookup {
    /// A lookup of `target` starting from the eight contacts of the table
    /// closest to it; with fewer than three, from the router nodes too, as
    /// nodes of unknown id (a random one when `random_ids`, else zero).
    pub fn new(target: &NodeId, own_id: &NodeId, table: &RoutingTable, random_ids: bool) -> (r: Self)
        requires
            table.wf(),
        ensures
            r.target == *target,
            r.own_id == *own_id,
            r.branch_factor == 3,
            r.txns.spec_pending().len() == 0,
            r.nodes@.len() <= 8 + table.router_nodes@.len(),
            forall|i: int| 0 <= i < r.nodes@.len() ==> #[trigger] r.nodes@[i].status == INITIAL || r.nodes@[i].status == INITIAL | NO_ID,
            exists|c: Seq<ContactRef>|
                closest_result(*table, target@, Seq::empty(), 8, c) && seeded(r.nodes@, c, table.router_nodes@, random_ids),
    {
        let mut closest: Vec<ContactRef> = Vec::new();
        assert(closest@ =~= Seq::<ContactRef>::empty());
        table.find_closest(target, &mut closest, 8);
        let mut nodes: Vec<DhtNode> = Vec::new();
        let mut i: usize = 0;
        assert(closest@.len() <= 8);
        while i < closest.len()
            invariant
                i <= closest@.len(),
                nodes@.len() == i,
                forall|j: int| 0 <= j < nodes@.len() ==> #[trigger] nodes@[j].status == INITIAL,
                forall|j: int| 0 <= j < i ==> #[trigger] nodes@[j] == (DhtNode { id: *closest@[j].id, addr: closest@[j].addr, status: INITIAL }),
            decreases closest@.len() - i,
        {
            nodes.push(DhtNode { id: *closest[i].id, addr: closest[i].addr, status: INITIAL });
            i = i + 1;
        }
        let c = closest.len();
        if nodes.len() < 3 {
            let mut k: usize = 0;
            while k < table.router_nodes.len()
                invariant
                    k <= table.router_nodes@.len(),
                    nodes@.len() == c + k,
                    c < 3,
                    c == closest@.len(),
                    k <= table.router_nodes@.len(),
                    forall|j: int| 0 <= j < nodes@.len() ==> #[trigger] nodes@[j].status == INITIAL || nodes@[j].status == INITIAL | NO_ID,
                    forall|j: int| 0 <= j < c ==> #[trigger] nodes@[j] == (DhtNode { id: *closest@[j].id, addr: closest@[j].addr, status: INITIAL }),
                    forall|j: int|
                        0 <= j < k ==> {
                            &&& (#[trigger] nodes@[c + j]).addr == table.router_nodes@[j]
                            &&& nodes@[c + j].status == INITIAL | NO_ID
                            &&& !random_ids ==> is_zero_id(nodes@[c + j].id@)
                        },
                decreases table.router_nodes@.len() - k,
            {
                let id = if random_ids {
                    NodeId::gen()
                } else {
                    NodeId::new()
                };
                nodes.push(DhtNode { id, addr: table.router_nodes[k], status: INITIAL | NO_ID });
                k = k + 1;
            }
        }
        assert(seeded(nodes@, closest@, table.router_nodes@, random_ids));
        Lookup { target: *target, own_id: *own_id, nodes, txns: Transactions::new(), branch_factor: 3 }
    }
}

/// Whether a round of queries has finished the lookup: nothing
/// outstanding and eight nodes alive.
pub open spec fn round_done(cur: InvokeCursor) -> bool {
    cur.outstanding == 0 && cur.alive == MAX_ALIVE
}

/// A lookup for the peers of an info hash, which keeps the tokens nodes
/// hand out for a later announce.
pub struct GetPeersRequest {
    pub lookup: Lookup,
    pub tokens: Tokens,
}

impl GetPeersRequest {
    /// A lookup of `info_hash` from the table's closest contacts (router
    /// nodes of id zero when there are fewer than three).
    pub fn new(info_hash: &NodeId, own_id: &NodeId, table: &RoutingTable) -> (r: Self)
        requires
            table.wf(),
        ensures
            r.lookup.target == *info_hash,
            r.lookup.own_id == *own_id,
            r.lookup.branch_factor == 3,
            r.lookup.txns.spec_pending().len() == 0,
            r.tokens.spec_entries().len() == 0,
            exists|c: Seq<ContactRef>|
                closest_result(*table, info_hash@, Seq::empty(), 8, c) && seeded(r.lookup.nodes@, c, table.router_nodes@, false),
    {
        GetPeersRequest { lookup: Lookup::new(info_hash, own_id, table, false), tokens: Tokens::new() }
    }

    /// Handles a reply (see [`Lookup::handle_reply`], checking the
    /// replier's id), keeping the token it hands out; gives whether it
    /// belonged to this lookup and the peers it carries.
    pub fn handle_reply(&mut self, resp: &Response, addr: &SockAddr, table: &mut RoutingTable) -> (r: (bool, Vec<SockAddr>))
        requires
            old(table).wf(),
        ensures
            final(table).wf(),
            final(table).own_id == old(table).own_id,
            forall|id: Seq<u8>, a: SockAddr| #[trigger] final(table).has(id, a) ==> old(table).has(id, a)
                || body_nodes(resp.body@).contains((id, a)),
            final(self).lookup.target == old(self).lookup.target,
            final(self).lookup.branch_factor == old(self).lookup.branch_factor,
            final(self).lookup.txns.spec_pending() == txn_without(old(self).lookup.txns.spec_pending(), resp.txn_id.0),
            !r.0 ==> final(self).lookup.txns.spec_pending() == old(self).lookup.txns.spec_pending(),
            reply_table_effect(*old(table), *final(table), old(self).lookup.txns.spec_pending(), true, resp.txn_id.0, resp.id@, resp.body@),
            ({
                let m = reply_effect(
                    old(self).lookup.txns.spec_pending(),
                    old(self).lookup.nodes@,
                    old(self).lookup.target@,
                    true,
                    resp.txn_id.0,
                    resp.id@,
                    resp.body@,
                    *addr,
                );
                &&& r.0 == m.handled
                &&& r.1@ == m.peers
                &&& final(self).lookup.nodes@ == m.nodes
                &&& final(self).tokens.spec_entries() == match m.token {
                    Some(t) => old(self).tokens.spec_entries().push((*addr, t)),
                    None => old(self).tokens.spec_entries(),
                }
            }),
    {
        let out = self.lookup.handle_reply(true, resp, addr, table);
        match out.token {
            Some(t) => {
                self.tokens.insert(*addr, t);
            },
            None => {},
        }
        (out.handled, out.peers)
    }

    /// Gives up on the queries whose timeout is out at time `now` or whose
    /// node left the table (see [`Lookup::prune`]).
    pub fn prune(&mut self, now: u64, table: &mut RoutingTable)
        requires
            old(table).wf(),
        ensures
            final(table).wf(),
            final(table).own_id == old(table).own_id,
            forall|id2: Seq<u8>, addr: SockAddr| #[trigger] final(table).has(id2, addr) == old(table).has(id2, addr),
            pruned(old(self).lookup, final(self).lookup, now, *old(table)),
            failed_chain(
                *old(table),
                *final(table),
                old(self).lookup.txns.spec_pending().filter(
                    |e: (TxnId, Request)| stale(e, now, old(self).lookup.txns.spec_timeout(), *old(table)),
                ),
            ),
            final(self).tokens.spec_entries() == old(self).tokens.spec_entries(),
    {
        self.lookup.prune(now, table);
    }

    /// Whether a finished round of queries ends the lookup: nothing
    /// outstanding and eight alive, or nothing awaited.
    pub fn invoke_done(&self, cur: &InvokeCursor) -> (r: bool)
        ensures
            r == (round_done(*cur) || self.lookup.txns.spec_pending().len() == 0),
    {
        (cur.outstanding == 0 && cur.alive == MAX_ALIVE) || self.lookup.txns.is_empty()
    }
}

/// A lookup for the peers of an info hash that gathers the peers it hears
/// of.
pub struct GetPeersTraversal {
    pub lookup: Lookup,
    pub peers: Vec<SockAddr>,
}

impl GetPeersTraversal {
    /// A lookup of `info_hash` from the table's closest contacts (router
    /// nodes of random ids when there are fewer than three).
    pub fn new(info_hash: &NodeId, own_id: &NodeId, table: &RoutingTable) -> (r: Self)
        requires
            table.wf(),
        ensures
            r.lookup.target == *info_hash,
            r.lookup.own_id == *own_id,
            r.lookup.branch_factor == 3,
            r.lookup.txns.spec_pending().len() == 0,
            r.peers@.len() == 0,
            exists|c: Seq<ContactRef>|
                closest_result(*table, info_hash@, Seq::empty(), 8, c) && seeded(r.lookup.nodes@, c, table.router_nodes@, true),
    {
        GetPeersTraversal { lookup: Lookup::new(info_hash, own_id, table, true), peers: Vec::new() }
    }

    /// Handles a reply (see [`Lookup::handle_reply`], not checking the
    /// replier's id), adding the peers it carries to those gathered.
    pub fn handle_reply(&mut self, resp: &Response, addr: &SockAddr, table: &mut RoutingTable) -> (r: bool)
        requires
            old(table).wf(),
        ensures
            final(table).wf(),
            final(table).own_id == old(table).own_id,
            forall|id: Seq<u8>, a: SockAddr| #[trigger] final(table).has(id, a) ==> old(table).has(id, a)
                || body_nodes(resp.body@).contains((id, a)),
            final(self).lookup.target == old(self).lookup.target,
            final(self).lookup.branch_factor == old(self).lookup.branch_factor,
            final(self).lookup.txns.spec_pending() == txn_without(old(self).lookup.txns.spec_pending(), resp.txn_id.0),
            !r ==> final(self).lookup.txns.spec_pending() == old(self).lookup.txns.spec_pending(),
            reply_table_effect(*old(table), *final(table), old(self).lookup.txns.spec_pending(), false, resp.txn_id.0, resp.id@, resp.body@),
            ({
                let m = reply_effect(
                    old(self).lookup.txns.spec_pending(),
                    old(self).lookup.nodes@,
                    old(self).lookup.target@,
                    false,
                    resp.txn_id.0,
                    resp.id@,
                    resp.body@,
                    *addr,
                );
                &&& r == m.handled
                &&& final(self).lookup.nodes@ == m.nodes
                &&& final(self).peers@ == old(self).peers@ + m.peers
            }),
    {
        let mut out = self.lookup.handle_reply(false, resp, addr, table);
        let ghost got = out.peers@;
        self.peers.append(&mut out.peers);
        assert(self.peers@ == old(self).peers@ + got);
        out.handled
    }

    /// Gives up on the queries whose timeout is out at time `now` or whose
    /// node left the table (see [`Lookup::prune`]).
    pub fn prune(&mut self, now: u64, table: &mut RoutingTable)
        requires
            old(table).wf(),
        ensures
            final(table).wf(),
            final(table).own_id == old(table).own_id,
            forall|id2: Seq<u8>, addr: SockAddr| #[trigger] final(table).has(id2, addr) == old(table).has(id2, addr),
            pruned(old(self).lookup, final(self).lookup, now, *old(table)),
            failed_chain(
                *old(table),
                *final(table),
                old(self).lookup.txns.spec_pending().filter(
                    |e: (TxnId, Request)| stale(e, now, old(self).lookup.txns.spec_timeout(), *old(table)),
                ),
            ),
            final(self).peers@ == old(self).peers@,
    {
        self.lookup.prune(now, table);
    }

    /// Whether a finished round of queries ends the lookup: nothing
    /// outstanding and eight alive.
    pub fn invoke_done(&self, cur: &InvokeCursor) -> (r: bool)
        ensures
            r == round_done(*cur),
    {
        cur.outstanding == 0 && cur.alive == MAX_ALIVE
    }
}

/// Where the announce that follows a lookup stands: the next node to look
/// at and the announces that went out.
#[derive(Debug, Clone, Copy)]
pub struct AnnounceCursor {
    pub next: usize,
    pub count: usize,
}

/// The next node to announce to from node `p`: the first alive node that
/// handed out a token, or -1 when there is none or eight announces went
/// out.
pub open spec fn announce_scan(nodes: Seq<DhtNode>, tokens: Seq<(SockAddr, Seq<u8>)>, p: int, count: int) -> int
    decreases nodes.len() - p,
{
    if p < 0 || p >= nodes.len() || count >= MAX_ALIVE {
        -1
    } else if !has_flag(nodes[p].status, ALIVE) || crate::dht::lookups::token_lookup(tokens, nodes[p].addr) is None {
        announce_scan(nodes, tokens, p + 1, count)
    } else {
        p
    }
}

/// A node the announce may go to: alive, and it handed out a token.
pub open spec fn announceable(n: DhtNode, tokens: Seq<(SockAddr, Seq<u8>)>) -> bool {
    has_flag(n.status, ALIVE) && token_lookup(tokens, n.addr) is Some
}

/// The announce goes to every alive node that handed out a token, in
/// order, until eight announces went out: from node `p`, the next one is
/// the first such node at or after `p`, with every node before it passed
/// over as not alive or without a token; and there is none (-1) only when
/// eight announces went out or no node from `p` on is alive with a token.
pub proof fn law_announce_next_node(nodes: Seq<DhtNode>, tokens: Seq<(SockAddr, Seq<u8>)>, p: int, count: int)
    requires
        0 <= p,
    ensures
        ({
            let i = announce_scan(nodes, tokens, p, count);
            &&& i >= 0 ==> p <= i < nodes.len() && count < MAX_ALIVE && announceable(nodes[i], tokens)
                && forall|k: int| p <= k < i ==> !announceable(#[trigger] nodes[k], tokens)
            &&& i == -1 ==> count >= MAX_ALIVE || forall|k: int| p <= k < nodes.len() ==> !announceable(#[trigger] nodes[k], tokens)
            &&& i == -1 || i >= 0
        }),
    decreases nodes.len() - p,
{
    if p >= nodes.len() || count >= MAX_ALIVE {
    } else if !announceable(nodes[p], tokens) {
        law_announce_next_node(nodes, tokens, p + 1, count);
    }
}

impl GetPeersRequest {
    /// The announce starts at the first node with nothing sent.
    pub fn announce_start(&self) -> (r: AnnounceCursor)
        ensures
            r.next == 0 && r.count == 0,
    {
        AnnounceCursor { next: 0, count: 0 }
    }

    /// The next node to announce to, with the token it handed out; `None`
    /// when the announce is over.
    pub fn announce_next(&self, cur: &mut AnnounceCursor) -> (r: Option<(usize, Vec<u8>)>)
        ensures
            final(cur).count == old(cur).count,
            ({
                let i = announce_scan(self.lookup.nodes@, self.tokens.spec_entries(), old(cur).next as int, old(cur).count as int);
                &&& i == -1 ==> r is None
                &&& i >= 0 ==> (r matches Some((k, t)) && k == i && final(cur).next == k && (k as int) < self.lookup.nodes@.len()
                    && token_lookup(self.tokens.spec_entries(), self.lookup.nodes@[i].addr) == Some(t@))
            }),
            r is None ==> old(cur).count >= MAX_ALIVE || forall|k: int|
                old(cur).next <= k < self.lookup.nodes@.len() ==> !announceable(#[trigger] self.lookup.nodes@[k], self.tokens.spec_entries()),
            r matches Some((k, t)) ==> announceable(self.lookup.nodes@[k as int], self.tokens.spec_entries()) && forall|j: int|
                old(cur).next <= j < k ==> !announceable(#[trigger] self.lookup.nodes@[j], self.tokens.spec_entries()),
    {
        proof {
            law_announce_next_node(self.lookup.nodes@, self.tokens.spec_entries(), cur.next as int, cur.count as int);
        }
        while cur.next < self.lookup.nodes.len()
            invariant
                cur.count == old(cur).count,
                announce_scan(self.lookup.nodes@, self.tokens.spec_entries(), cur.next as int, cur.count as int)
                    == announce_scan(self.lookup.nodes@, self.tokens.spec_entries(), old(cur).next as int, old(cur).count as int),
            decreases self.lookup.nodes@.len() - cur.next,
        {
            if cur.count >= MAX_ALIVE {
                return None;
            }
            let n = self.lookup.nodes[cur.next];
            if n.status & ALIVE == ALIVE {
                match self.tokens.get(&n.addr) {
                    Some(t) => {
                        proof {
                            law_announce_next_node(self.lookup.nodes@, self.tokens.spec_entries(), old(cur).next as int, old(cur).count as int);
                        }
                        return Some((cur.next, t.clone()));
                    },
                    None => {},
                }
            }
            cur.next = cur.next + 1;
        }
        None
    }

    /// Records the sending of an announce to the node the cursor stands on;
    /// only one that went out counts.
    pub fn announce_sent(&self, cur: &mut AnnounceCursor, ok: bool)
        requires
            old(cur).next < self.lookup.nodes@.len(),
            old(cur).count < MAX_ALIVE,
        ensures
            final(cur).next == old(cur).next + 1,
            final(cur).count == if ok { old(cur).count + 1 } else { old(cur).count as int },
    {
        let len = self.lookup.nodes.len();
        assert(cur.next < len);
        cur.next = cur.next + 1;
        if ok {
            cur.count = cur.count + 1;
        }
    }
}

/// A ping of one node, which learns whether it answers.
pub struct PingRequest {
    pub own_id: NodeId,
    pub node: DhtNode,
    pub txn_id: TxnId,
    /// When the ping was made, in milliseconds.
    pub sent: u64,
    pub done: bool,
}

/// How long a ping may go unanswered, in milliseconds.
pub const PING_TIMEOUT: u64 = 10000;

impl PingRequest {
    /// A ping, made at time `now`, of the node `id` at `addr`.
    pub fn new(own_id: &NodeId, id: &NodeId, addr: &SockAddr, now: u64) -> (r: Self)
        ensures
            r.own_id == *own_id,
            r.node == (DhtNode { id: *id, addr: *addr, status: INITIAL }),
            r.txn_id == TxnId(0),
            r.sent == now,
            !r.done,
    {
        PingRequest {
            own_id: *own_id,
            node: DhtNode { id: *id, addr: *addr, status: INITIAL },
            txn_id: TxnId(0),
            sent: now,
            done: false,
        }
    }

    /// At time `now`, gives the ping up when it went unanswered for longer
    /// than its timeout: the table counts a timeout of the node.
    pub fn prune(&mut self, now: u64, table: &mut RoutingTable)
        requires
            old(table).wf(),
        ensures
            final(table).wf(),
            final(table).own_id == old(table).own_id,
            forall|id2: Seq<u8>, addr: SockAddr| #[trigger] final(table).has(id2, addr) == old(table).has(id2, addr),
            final(self).node == old(self).node,
            final(self).txn_id == old(self).txn_id,
            final(self).sent == old(self).sent,
            final(self).done == (old(self).done || old(self).sent + PING_TIMEOUT < now),
            final(self).done && !old(self).done ==> failed_effect(*old(table), *final(table), old(self).node.id@),
            !(final(self).done && !old(self).done) ==> *final(table) == *old(table),
    {
        if !self.done && self.sent < now && now - self.sent > PING_TIMEOUT {
            table.failed(&self.node.id);
            self.done = true;
        }
    }

    /// Handles a reply; `false` when it is not to this ping. A reply from
    /// the pinged node (same id, same address) adds it to the table; any
    /// other counts a timeout of the replier's id. Either ends the ping.
    pub fn handle_reply(&mut self, resp: &Response, addr: &SockAddr, table: &mut RoutingTable) -> (r: bool)
        requires
            old(table).wf(),
        ensures
            final(table).wf(),
            final(table).own_id == old(table).own_id,
            r == (resp.txn_id == old(self).txn_id),
            !r ==> *final(self) == *old(self) && *final(table) == *old(table),
            r ==> final(self).done,
            r ==> final(self).node == old(self).node && final(self).txn_id == old(self).txn_id,
            r && !(old(self).node.id@ == resp.id@ && old(self).node.addr == *addr) ==> failed_effect(
                *old(table),
                *final(table),
                resp.id@,
            ),
            r && old(self).node.id@ == resp.id@ && old(self).node.addr == *addr ==> forall|id2: Seq<u8>, a2: SockAddr|
                #[trigger] final(table).has(id2, a2) ==> old(table).has(id2, a2) || (id2 == resp.id@ && a2 == *addr),
    {
        if self.txn_id.0 != resp.txn_id.0 {
            return false;
        }
        if self.node.id.same(&resp.id) && self.node.addr == *addr {
            table.add_contact(&ContactRef { id: &resp.id, addr: *addr });
        } else {
            table.failed(&resp.id);
        }
        self.done = true;
        true
    }

    /// Whether a ping must still be sent; a finished ping is done at once.
    pub fn invoke_needed(&self) -> (r: bool)
        ensures
            r == !self.done,
    {
        !self.done
    }

    /// Records the sending of the ping under transaction `txn_id`: awaited
    /// when it went out (the ping goes on), done when not.
    pub fn invoke_sent(&mut self, txn_id: TxnId, ok: bool) -> (r: bool)
        ensures
            r == !ok,
            ok ==> final(self).txn_id == txn_id && final(self).node == (DhtNode {
                status: old(self).node.status | QUERIED,
                ..old(self).node
            }),
            !ok ==> final(self).txn_id == old(self).txn_id && final(self).node == old(self).node,
            final(self).done == old(self).done,
            final(self).sent == old(self).sent,
            final(self).own_id == old(self).own_id,
    {
        if ok {
            self.node.status = self.node.status | QUERIED;
            self.txn_id = txn_id;
            false
        } else {
            true
        }
    }
}

} // verus!
