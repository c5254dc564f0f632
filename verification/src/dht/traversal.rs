//! Iterative lookups of the DHT: the nodes a lookup knows, which of them to
//! query next, and what their replies teach.
use crate::bencode::{bencode_dict_of, bencode_list_of, entries_view, key, parse_dict, parse_list, BEntry, BVal, BValue};
use crate::dht::contact::{compact_v4_at, compact_v6_at, be_num, CompactNodes, CompactNodesV6, Contact, ContactRef, SockAddr};
use crate::dht::id::{id_of, lemma_id_of, seq_lt, seq_xor, NodeId};
use crate::dht::msg::{bytes_at, get_bytes, get_list, list_at, Response, TxnId};
use crate::dht::table::{failed_effect, heard_from_effect, RoutingTable};
use vstd::prelude::*;

verus! {

/// Status flag: the node was given to the lookup.
pub const INITIAL: u8 = 0x01;
/// Status flag: the node answered.
pub const ALIVE: u8 = 0x02;
/// Status flag: the node failed to answer.
pub const FAILED: u8 = 0x04;
/// Status flag: the node's id is not known (a router).
pub const NO_ID: u8 = 0x08;
/// Status flag: the node was queried.
pub const QUERIED: u8 = 0x10;

/// The number of nodes a lookup waits for, and at most announces to.
pub const MAX_ALIVE: usize = 8;

/// The most nodes a lookup keeps.
pub const MAX_NODES: usize = 100;

/// A node met by a lookup.
#[derive(Debug, Clone, Copy)]
pub struct DhtNode {
    pub id: NodeId,
    pub addr: SockAddr,
    pub status: u8,
}

/// The distance of a node from the target.
pub open spec fn node_key(n: DhtNode, target: Seq<u8>) -> Seq<u8> {
    seq_xor(n.id@, target)
}

/// `t` (sorted) with `x` put after every node not farther than it.
pub open spec fn insert_by_key(t: Seq<DhtNode>, x: DhtNode, target: Seq<u8>) -> Seq<DhtNode>
    decreases t.len(),
{
    if t.len() == 0 {
        seq![x]
    } else if !seq_lt(node_key(x, target), node_key(t.last(), target)) {
        t.push(x)
    } else {
        insert_by_key(t.drop_last(), x, target).push(t.last())
    }
}

/// The nodes stably sorted by distance from the target.
pub open spec fn sort_by_key(s: Seq<DhtNode>, target: Seq<u8>) -> Seq<DhtNode>
    decreases s.len(),
{
    if s.len() == 0 {
        s
    } else {
        insert_by_key(sort_by_key(s.drop_last(), target), s.last(), target)
    }
}

/// Inserting where the nodes start being farther than `x`.
proof fn lemma_insert_split(t: Seq<DhtNode>, x: DhtNode, target: Seq<u8>, j: int)
    requires
        0 <= j <= t.len(),
        forall|k: int| j <= k < t.len() ==> seq_lt(node_key(x, target), #[trigger] node_key(t[k], target)),
        j > 0 ==> !seq_lt(node_key(x, target), node_key(t[j - 1], target)),
    ensures
        insert_by_key(t, x, target) == t.take(j).push(x) + t.skip(j),
    decreases t.len(),
{
    if t.len() == 0 {
        assert(t.take(j).push(x) + t.skip(j) =~= seq![x]);
    } else if j == t.len() {
        assert(t.take(j) =~= t);
        assert(t.take(j).push(x) + t.skip(j) =~= t.push(x));
    } else {
        let d = t.drop_last();
        assert forall|k: int| j <= k < d.len() implies seq_lt(node_key(x, target), #[trigger] node_key(d[k], target)) by {
            assert(d[k] == t[k]);
        }
        if j > 0 {
            assert(d[j - 1] == t[j - 1]);
        }
        lemma_insert_split(d, x, target, j);
        assert(t.take(j).push(x) + t.skip(j) =~= (d.take(j).push(x) + d.skip(j)).push(t.last()));
    }
}

/// Whether `a` is closer to the target than `b`.
fn closer(a: &DhtNode, b: &DhtNode, target: &NodeId) -> (r: bool)
    ensures
        r == seq_lt(node_key(*a, target@), node_key(*b, target@)),
{
    a.id.xor(target).less_than(&b.id.xor(target))
}

/// Puts `x` into the sorted `t` after every node not farther than it.
fn insert_sorted(t: &mut Vec<DhtNode>, x: DhtNode, target: &NodeId)
    ensures
        final(t)@ == insert_by_key(old(t)@, x, target@),
{
    let mut j = t.len();
    let mut stop = false;
    while j > 0 && !stop
        invariant
            j <= t@.len(),
            t@ == old(t)@,
            forall|k: int| j <= k < t@.len() ==> seq_lt(node_key(x, target@), #[trigger] node_key(t@[k], target@)),
            stop ==> j > 0 && !seq_lt(node_key(x, target@), node_key(t@[j - 1], target@)),
        decreases j + if stop { 0int } else { 1int },
    {
        if !closer(&x, &t[j - 1], target) {
            stop = true;
        } else {
            j = j - 1;
        }
    }
    proof {
        lemma_insert_split(t@, x, target@, j as int);
    }
    t.insert(j, x);
    assert(t@ =~= old(t)@.take(j as int).push(x) + old(t)@.skip(j as int));
}

/// The nodes stably sorted by distance from the target.
pub fn sort_nodes(nodes: &Vec<DhtNode>, target: &NodeId) -> (r: Vec<DhtNode>)
    ensures
        r@ == sort_by_key(nodes@, target@),
{
    let mut out: Vec<DhtNode> = Vec::new();
    let mut i: usize = 0;
    while i < nodes.len()
        invariant
            i <= nodes@.len(),
            out@ == sort_by_key(nodes@.take(i as int), target@),
        decreases nodes@.len() - i,
    {
        proof {
            assert(nodes@.take(i + 1).drop_last() =~= nodes@.take(i as int));
        }
        insert_sorted(&mut out, nodes[i], target);
        i = i + 1;
    }
    assert(nodes@.take(nodes@.len() as int) =~= nodes@);
    out
}

/// A query we wait for an answer to, sent at time `sent` (milliseconds on
/// the caller's clock), for the traversal `traversal_id` (zero for the
/// queries a lookup keeps itself).
#[derive(Debug, Clone, Copy)]
pub struct Request {
    pub id: NodeId,
    pub has_id: bool,
    pub addr: SockAddr,
    pub sent: u64,
    pub traversal_id: usize,
}

/// The queries we wait for answers to, by transaction id, and how long
/// (in milliseconds) an answer may take.
#[derive(Debug)]
pub struct Transactions {
    pending: Vec<(TxnId, Request)>,
    timeout: u64,
}

/// The time from `sent` to `now`; zero when `now` is earlier.
pub open spec fn elapsed(now: u64, sent: u64) -> u64 {
    if now >= sent {
        (now - sent) as u64
    } else {
        0
    }
}

/// Whether a query has waited its timeout out at time `now`.
pub open spec fn expired(e: (TxnId, Request), now: u64, timeout: u64) -> bool {
    !(elapsed(now, e.1.sent) < timeout)
}

/// Whether a query is given up at time `now` against table `t`: it waited
/// its timeout out, or its node, whose id is known, is no longer in the
/// table.
pub open spec fn stale(e: (TxnId, Request), now: u64, timeout: u64, t: RoutingTable) -> bool {
    expired(e, now, timeout) || (e.1.has_id && !t.has_id(e.1.id@))
}

/// The request waiting under transaction `t`, if any.
pub open spec fn txn_lookup(s: Seq<(TxnId, Request)>, t: u16) -> Option<Request>
    decreases s.len(),
{
    if s.len() == 0 {
        None
    } else if s.last().0.0 == t {
        Some(s.last().1)
    } else {
        txn_lookup(s.drop_last(), t)
    }
}

/// The pending queries without those of transaction `t`.
pub open spec fn txn_without(s: Seq<(TxnId, Request)>, t: u16) -> Seq<(TxnId, Request)> {
    s.filter(|e: (TxnId, Request)| e.0.0 != t)
}

impl Transactions {
    /// The pending queries, in the order they were made.
    pub closed spec fn spec_pending(&self) -> Seq<(TxnId, Request)> {
        self.pending@
    }

    /// How long an answer may take, in milliseconds.
    pub closed spec fn spec_timeout(&self) -> u64 {
        self.timeout
    }

    /// No query waits; answers may take five seconds.
    pub fn new() -> (r: Self)
        ensures
            r.spec_pending() == Seq::<(TxnId, Request)>::empty(),
            r.spec_timeout() == 5000,
    {
        Self::with_timeout(5000)
    }

    /// No query waits; answers may take `timeout` milliseconds.
    pub fn with_timeout(timeout: u64) -> (r: Self)
        ensures
            r.spec_pending() == Seq::<(TxnId, Request)>::empty(),
            r.spec_timeout() == timeout,
    {
        Transactions { pending: Vec::new(), timeout }
    }

    /// Waits for an answer to the query of transaction `txn_id`, sent to
    /// `addr` (whose id is `id` when `has_id`) at time `sent` for traversal
    /// `traversal_id`; an earlier query under the same id is forgotten.
    pub fn insert(
        &mut self,
        txn_id: TxnId,
        id: &NodeId,
        has_id: bool,
        addr: &SockAddr,
        sent: u64,
        traversal_id: usize,
    )
        ensures
            final(self).spec_pending() == txn_without(old(self).spec_pending(), txn_id.0).push(
                (txn_id, Request { id: *id, has_id, addr: *addr, sent, traversal_id }),
            ),
            final(self).spec_timeout() == old(self).spec_timeout(),
    {
        self.remove(txn_id);
        self.pending.push((txn_id, Request { id: *id, has_id, addr: *addr, sent, traversal_id }));
    }

    /// Stops waiting for the queries whose timeout is out at time `now`,
    /// giving them in the order they were made.
    pub fn take_expired(&mut self, now: u64) -> (r: Vec<(TxnId, Request)>)
        ensures
            r@ == old(self).spec_pending().filter(|e: (TxnId, Request)| expired(e, now, old(self).spec_timeout())),
            final(self).spec_pending() == old(self).spec_pending().filter(
                |e: (TxnId, Request)| !expired(e, now, old(self).spec_timeout()),
            ),
            final(self).spec_timeout() == old(self).spec_timeout(),
    {
        let mut kept: Vec<(TxnId, Request)> = Vec::new();
        let mut gone: Vec<(TxnId, Request)> = Vec::new();
        let mut i: usize = 0;
        let ghost old_p = self.pending@;
        let timeout = self.timeout;
        while i < self.pending.len()
            invariant
                old_p == self.pending@,
                timeout == self.timeout,
                i <= old_p.len(),
                kept@ == old_p.take(i as int).filter(|e: (TxnId, Request)| !expired(e, now, timeout)),
                gone@ == old_p.take(i as int).filter(|e: (TxnId, Request)| expired(e, now, timeout)),
            decreases old_p.len() - i,
        {
            let e = self.pending[i];
            proof {
                assert(old_p.take(i + 1).drop_last() =~= old_p.take(i as int));
                assert(old_p.take(i + 1) =~= old_p.take(i as int).push(e));
                reveal(Seq::filter);
            }
            let waited = if now >= e.1.sent {
                now - e.1.sent
            } else {
                0
            };
            if waited < timeout {
                kept.push(e);
            } else {
                gone.push(e);
            }
            i = i + 1;
        }
        assert(old_p.take(old_p.len() as int) =~= old_p);
        self.pending = kept;
        gone
    }

    /// Stops waiting for the queries whose timeout is out at time `now`
    /// and for those whose node has left `table`, giving them in the order
    /// they were made.
    pub fn take_stale(&mut self, now: u64, table: &RoutingTable) -> (r: Vec<(TxnId, Request)>)
        requires
            table.wf(),
        ensures
            r@ == old(self).spec_pending().filter(|e: (TxnId, Request)| stale(e, now, old(self).spec_timeout(), *table)),
            final(self).spec_pending() == old(self).spec_pending().filter(
                |e: (TxnId, Request)| !stale(e, now, old(self).spec_timeout(), *table),
            ),
            final(self).spec_timeout() == old(self).spec_timeout(),
    {
        let mut kept: Vec<(TxnId, Request)> = Vec::new();
        let mut gone: Vec<(TxnId, Request)> = Vec::new();
        let mut i: usize = 0;
        let ghost old_p = self.pending@;
        let timeout = self.timeout;
        while i < self.pending.len()
            invariant
                old_p == self.pending@,
                table.wf(),
                timeout == self.timeout,
                i <= old_p.len(),
                kept@ == old_p.take(i as int).filter(|e: (TxnId, Request)| !stale(e, now, timeout, *table)),
                gone@ == old_p.take(i as int).filter(|e: (TxnId, Request)| stale(e, now, timeout, *table)),
            decreases old_p.len() - i,
        {
            let e = self.pending[i];
            proof {
                assert(old_p.take(i + 1).drop_last() =~= old_p.take(i as int));
                assert(old_p.take(i + 1) =~= old_p.take(i as int).push(e));
                reveal(Seq::filter);
            }
            let waited = if now >= e.1.sent {
                now - e.1.sent
            } else {
                0
            };
            if waited < timeout && (!e.1.has_id || table.knows_id(&e.1.id)) {
                kept.push(e);
            } else {
                gone.push(e);
            }
            i = i + 1;
        }
        assert(old_p.take(old_p.len() as int) =~= old_p);
        self.pending = kept;
        gone
    }

    /// Stops waiting for transaction `txn_id`, giving the query that waited.
    pub fn remove(&mut self, txn_id: TxnId) -> (r: Option<Request>)
        ensures
            r == txn_lookup(old(self).spec_pending(), txn_id.0),
            final(self).spec_pending() == txn_without(old(self).spec_pending(), txn_id.0),
            final(self).spec_timeout() == old(self).spec_timeout(),
    {
        let mut kept: Vec<(TxnId, Request)> = Vec::new();
        let mut found: Option<Request> = None;
        let mut i: usize = 0;
        let ghost old_p = self.pending@;
        while i < self.pending.len()
            invariant
                old_p == self.pending@,
                i <= old_p.len(),
                kept@ == txn_without(old_p.take(i as int), txn_id.0),
                found == txn_lookup(old_p.take(i as int), txn_id.0),
            decreases old_p.len() - i,
        {
            let e = self.pending[i];
            proof {
                assert(old_p.take(i + 1).drop_last() =~= old_p.take(i as int));
                assert(old_p.take(i + 1) =~= old_p.take(i as int).push(e));
                reveal(Seq::filter);
            }
            if e.0.0 == txn_id.0 {
                found = Some(e.1);
            } else {
                kept.push(e);
            }
            i = i + 1;
        }
        assert(old_p.take(old_p.len() as int) =~= old_p);
        self.pending = kept;
        found
    }

    /// Whether no query waits.
    pub fn is_empty(&self) -> (r: bool)
        ensures
            r == (self.spec_pending().len() == 0),
    {
        self.pending.len() == 0
    }
}

/// A lookup of the nodes closest to a target.
pub struct Lookup {
    pub target: NodeId,
    pub own_id: NodeId,
    /// The nodes met, closest first once a reply was handled.
    pub nodes: Vec<DhtNode>,
    pub txns: Transactions,
    /// How many queries may be outstanding at once.
    pub branch_factor: u8,
}

/// Where a round of queries stands: the next node to look at, the queries
/// outstanding and the nodes alive counted so far.
#[derive(Debug, Clone, Copy)]
pub struct InvokeCursor {
    pub next: usize,
    pub outstanding: u8,
    pub alive: usize,
}

/// What a round of queries does next: query a node, or stop.
#[derive(Debug, Clone, Copy, PartialEq, Eq, Structural)]
pub enum InvokeStep {
    Query(usize),
    Finished,
}

/// Whether a status has all the flags of `f`.
pub open spec fn has_flag(status: u8, f: u8) -> bool {
    status & f == f
}

/// The round of queries from node `p` with `o` outstanding and `a` alive:
/// the node to query next (or -1 when the round stops) and the counts then.
pub open spec fn scan(nodes: Seq<DhtNode>, bf: int, p: int, o: int, a: int) -> (int, int, int)
    decreases nodes.len() - p,
{
    if p < 0 || p >= nodes.len() || a == MAX_ALIVE || o == bf {
        (-1, o, a)
    } else if has_flag(nodes[p].status, ALIVE) {
        scan(nodes, bf, p + 1, o, a + 1)
    } else if has_flag(nodes[p].status, QUERIED) {
        scan(nodes, bf, p + 1, if has_flag(nodes[p].status, FAILED) { o } else { o + 1 }, a)
    } else {
        (p, o, a)
    }
}

/// A scan stays within the counts it may reach.
proof fn lemma_scan_bounds(nodes: Seq<DhtNode>, bf: int, p: int, o: int, a: int)
    requires
        0 <= o <= bf,
        0 <= a <= MAX_ALIVE,
        0 <= p,
    ensures
        ({
            let (i, o2, a2) = scan(nodes, bf, p, o, a);
            &&& 0 <= o2 <= bf
            &&& 0 <= a2 <= MAX_ALIVE
            &&& i == -1 || (p <= i < nodes.len() && o2 < bf && a2 < MAX_ALIVE)
        }),
    decreases nodes.len() - p,
{
    if p < 0 || p >= nodes.len() || a == MAX_ALIVE || o == bf {
    } else if has_flag(nodes[p].status, ALIVE) {
        lemma_scan_bounds(nodes, bf, p + 1, o, a + 1);
    } else if has_flag(nodes[p].status, QUERIED) {
        lemma_scan_bounds(nodes, bf, p + 1, if has_flag(nodes[p].status, FAILED) { o } else { o + 1 }, a);
    }
}

/// A node whose query was sent and is still awaited: queried, neither
/// answered nor timed out.
pub open spec fn awaited(n: DhtNode) -> bool {
    !has_flag(n.status, ALIVE) && has_flag(n.status, QUERIED) && !has_flag(n.status, FAILED)
}

/// How many of the nodes from `lo` up to `hi` (excluded) have their query
/// awaited.
pub open spec fn count_awaited(nodes: Seq<DhtNode>, lo: int, hi: int) -> int
    decreases hi - lo,
{
    if lo >= hi {
        0
    } else {
        (if awaited(nodes[lo]) { 1int } else { 0int }) + count_awaited(nodes, lo + 1, hi)
    }
}

/// How many of the nodes from `lo` up to `hi` (excluded) answered.
pub open spec fn count_alive(nodes: Seq<DhtNode>, lo: int, hi: int) -> int
    decreases hi - lo,
{
    if lo >= hi {
        0
    } else {
        (if has_flag(nodes[lo].status, ALIVE) { 1int } else { 0int }) + count_alive(nodes, lo + 1, hi)
    }
}

/// Node `i` is the one a round from node `p` (with `o` queries awaited and
/// `a` nodes alive so far) queries next: it was never queried, every node
/// between is alive or was queried, and before it fewer than `bf` queries
/// are awaited (a query that failed is not awaited) and fewer than eight
/// nodes are alive.
pub open spec fn round_pick(nodes: Seq<DhtNode>, bf: int, p: int, o: int, a: int, i: int) -> bool {
    &&& p <= i < nodes.len()
    &&& !has_flag(nodes[i].status, ALIVE) && !has_flag(nodes[i].status, QUERIED)
    &&& forall|k: int| p <= k < i ==> has_flag(#[trigger] nodes[k].status, ALIVE) || has_flag(nodes[k].status, QUERIED)
    &&& o + count_awaited(nodes, p, i) < bf
    &&& a + count_alive(nodes, p, i) < MAX_ALIVE
}

/// A round of queries goes to the first node never queried, as long as
/// fewer than `bf` queries are awaited and fewer than eight nodes answered
/// before it; a query that timed out no longer counts as awaited. The round
/// stops (-1) exactly when no node is such a pick, and the counts it hands
/// back are those it started with plus the awaited and alive nodes passed.
pub proof fn law_round_pick(nodes: Seq<DhtNode>, bf: int, p: int, o: int, a: int)
    requires
        0 <= p,
        0 <= o <= bf,
        0 <= a <= MAX_ALIVE,
    ensures
        ({
            let (i, o2, a2) = scan(nodes, bf, p, o, a);
            &&& i >= 0 ==> round_pick(nodes, bf, p, o, a, i) && o2 == o + count_awaited(nodes, p, i)
                && a2 == a + count_alive(nodes, p, i)
            &&& i == -1 ==> forall|j: int| !#[trigger] round_pick(nodes, bf, p, o, a, j)
            &&& i == -1 || i >= 0
        }),
    decreases nodes.len() - p,
{
    let (i, o2, a2) = scan(nodes, bf, p, o, a);
    if p >= nodes.len() || a == MAX_ALIVE || o == bf {
        assert forall|j: int| !#[trigger] round_pick(nodes, bf, p, o, a, j) by {
            if round_pick(nodes, bf, p, o, a, j) {
                lemma_counts_nonneg(nodes, p, j);
            }
        }
    } else {
        let n = nodes[p];
        let alive = has_flag(n.status, ALIVE);
        let queried = has_flag(n.status, QUERIED);
        if !alive && !queried {
            assert(count_awaited(nodes, p, p) == 0 && count_alive(nodes, p, p) == 0);
        } else {
            let o1 = if awaited(n) { o + 1 } else { o };
            let a1 = if alive { a + 1 } else { a };
            assert(scan(nodes, bf, p, o, a) == scan(nodes, bf, p + 1, o1, a1));
            law_round_pick(nodes, bf, p + 1, o1, a1);
            assert forall|j: int| p < j implies (#[trigger] round_pick(nodes, bf, p, o, a, j)) == round_pick(nodes, bf, p + 1, o1, a1, j) by {
                assert(count_awaited(nodes, p, j) == (if awaited(n) { 1int } else { 0int }) + count_awaited(nodes, p + 1, j));
                assert(count_alive(nodes, p, j) == (if alive { 1int } else { 0int }) + count_alive(nodes, p + 1, j));
            }
            assert(!round_pick(nodes, bf, p, o, a, p));
            if i >= 0 {
                let (_, _, _) = scan(nodes, bf, p + 1, o1, a1);
                assert(count_awaited(nodes, p, i) == (if awaited(n) { 1int } else { 0int }) + count_awaited(nodes, p + 1, i));
                assert(count_alive(nodes, p, i) == (if alive { 1int } else { 0int }) + count_alive(nodes, p + 1, i));
            }
        }
    }
}

proof fn lemma_counts_nonneg(nodes: Seq<DhtNode>, lo: int, hi: int)
    ensures
        count_awaited(nodes, lo, hi) >= 0,
        count_alive(nodes, lo, hi) >= 0,
    decreases hi - lo,
{
    if lo < hi {
        lemma_counts_nonneg(nodes, lo + 1, hi);
    }
}

/// The first node with this address, or -1.
pub open spec fn find_addr(nodes: Seq<DhtNode>, addr: SockAddr) -> int
    decreases nodes.len(),
{
    if nodes.len() == 0 {
        -1
    } else if find_addr(nodes.drop_last(), addr) >= 0 {
        find_addr(nodes.drop_last(), addr)
    } else if nodes.last().addr == addr {
        nodes.len() - 1
    } else {
        -1
    }
}

/// Whether a node with this id is known.
pub open spec fn has_node_id(nodes: Seq<DhtNode>, id: Seq<u8>) -> bool {
    exists|i: int| 0 <= i < nodes.len() && (#[trigger] nodes[i]).id@ == id
}

/// The nodes with the contacts `cs` added whose ids are not known yet.
pub open spec fn merge_nodes(nodes: Seq<DhtNode>, cs: Seq<(Seq<u8>, SockAddr)>) -> Seq<DhtNode>
    decreases cs.len(),
{
    if cs.len() == 0 {
        nodes
    } else {
        let m = merge_nodes(nodes, cs.drop_last());
        let c = cs.last();
        if has_node_id(m, c.0) {
            m
        } else {
            m.push(DhtNode { id: id_of(c.0), addr: c.1, status: INITIAL })
        }
    }
}

/// The entries of a reply's values dictionary.
pub open spec fn body_entries(body: Seq<u8>) -> Seq<(Seq<u8>, BVal)> {
    match bencode_dict_of(body) {
        Some(Some(es)) => es,
        _ => Seq::empty(),
    }
}

/// The IPv4 contacts of a reply's `nodes` list: none when there is no
/// such list, `None` when it is not a whole number of entries.
pub open spec fn body_nodes_v4(body: Seq<u8>) -> Option<Seq<(Seq<u8>, SockAddr)>> {
    match bytes_at(body_entries(body), key("nodes")) {
        Some(b) => if b.len() % 26 == 0 {
            Some(Seq::new(b.len() / 26, |i: int| compact_v4_at(b, i)))
        } else {
            None
        },
        None => Some(Seq::empty()),
    }
}

/// The IPv6 contacts of a reply's `nodes6` list: none when there is no
/// such list, `None` when it is not a whole number of entries.
pub open spec fn body_nodes_v6(body: Seq<u8>) -> Option<Seq<(Seq<u8>, SockAddr)>> {
    match bytes_at(body_entries(body), key("nodes6")) {
        Some(b) => if b.len() % 38 == 0 {
            Some(Seq::new(b.len() / 38, |i: int| compact_v6_at(b, i)))
        } else {
            None
        },
        None => Some(Seq::empty()),
    }
}

/// The contacts a reply carries, in the order they are read: those of
/// `nodes`, then those of `nodes6`. Reading stops at the first list that
/// is not a whole number of entries.
pub open spec fn body_nodes(body: Seq<u8>) -> Seq<(Seq<u8>, SockAddr)> {
    match body_nodes_v4(body) {
        None => Seq::empty(),
        Some(v4) => match body_nodes_v6(body) {
            None => v4,
            Some(v6) => v4 + v6,
        },
    }
}

/// The token a reply carries.
pub open spec fn body_token(body: Seq<u8>) -> Option<Seq<u8>> {
    bytes_at(body_entries(body), key("token"))
}

/// The peer address of a compact IPv4 peer item, if it is one.
pub open spec fn peer_of(v: BVal) -> Option<SockAddr> {
    match v {
        BVal::Bytes(b) => if b.len() == 6 {
            Some(SockAddr::V4(be_num(b.subrange(0, 4)) as u32, be_num(b.subrange(4, 6)) as u16))
        } else {
            None
        },
        _ => None,
    }
}

/// The peers of a list of items, skipping those that are not peers.
pub open spec fn peers_of(items: Seq<BVal>) -> Seq<SockAddr>
    decreases items.len(),
{
    if items.len() == 0 {
        Seq::empty()
    } else {
        match peer_of(items.last()) {
            Some(a) => peers_of(items.drop_last()).push(a),
            None => peers_of(items.drop_last()),
        }
    }
}

/// The peers a reply carries under `values`.
pub open spec fn body_peers(body: Seq<u8>) -> Seq<SockAddr> {
    match list_at(body_entries(body), key("values")) {
        Some(raw) => match bencode_list_of(raw) {
            Some(Some(items)) => peers_of(items),
            _ => Seq::empty(),
        },
        None => Seq::empty(),
    }
}

/// The first `n` of the nodes.
pub open spec fn truncate(s: Seq<DhtNode>, n: int) -> Seq<DhtNode> {
    if s.len() > n {
        s.take(n)
    } else {
        s
    }
}

/// What handling a reply of transaction `txn` from the node `resp_id`,
/// whose body is `body`, does to the routing table, for a lookup with
/// pending queries `pending`: nothing when the transaction is not pending;
/// when the query's node id is known, a timeout of that node if `check_id`
/// and the replier's id is another, else the node heard from, after which
/// only contacts the reply carries join the table.
pub open spec fn reply_table_effect(
    t0: RoutingTable,
    t1: RoutingTable,
    pending: Seq<(TxnId, Request)>,
    check_id: bool,
    txn: u16,
    resp_id: Seq<u8>,
    body: Seq<u8>,
) -> bool {
    match txn_lookup(pending, txn) {
        None => t1 == t0,
        Some(q) => if q.has_id && check_id && q.id@ != resp_id {
            failed_effect(t0, t1, q.id@)
        } else if q.has_id {
            exists|tm: RoutingTable|
                #[trigger] heard_from_effect(t0, tm, q.id@) && forall|id: Seq<u8>, a: SockAddr|
                    #[trigger] t1.has(id, a) ==> tm.has(id, a) || body_nodes(body).contains((id, a))
        } else {
            forall|id: Seq<u8>, a: SockAddr| #[trigger] t1.has(id, a) ==> t0.has(id, a) || body_nodes(body).contains((id, a))
        },
    }
}

/// Dropping the queries of a transaction that has none leaves them as
/// they are.
proof fn lemma_without_absent(p: Seq<(TxnId, Request)>, t: u16)
    requires
        txn_lookup(p, t) is None,
    ensures
        txn_without(p, t) == p,
    decreases p.len(),
{
    reveal(Seq::filter);
    if p.len() > 0 {
        lemma_without_absent(p.drop_last(), t);
        assert(p.drop_last().push(p.last()) =~= p);
    }
}

/// The model of what handling a reply does: whether it belonged to the
/// lookup, the lookup's nodes after it, the peers and the token it hands
/// out.
pub struct ReplyModel {
    pub handled: bool,
    pub nodes: Seq<DhtNode>,
    pub peers: Seq<SockAddr>,
    pub token: Option<Seq<u8>>,
}

/// What handling a reply of transaction `txn` from `addr` does to a lookup
/// of `target` with pending queries `pending` and nodes `nodes`.
pub open spec fn reply_effect(
    pending: Seq<(TxnId, Request)>,
    nodes: Seq<DhtNode>,
    target: Seq<u8>,
    check_id: bool,
    txn: u16,
    resp_id: Seq<u8>,
    body: Seq<u8>,
    addr: SockAddr,
) -> ReplyModel {
    let req = txn_lookup(pending, txn);
    let k = find_addr(nodes, addr);
    let unchanged = ReplyModel { handled: false, nodes, peers: Seq::empty(), token: None };
    if req is None {
        unchanged
    } else if check_id && req->0.has_id && req->0.id@ != resp_id {
        ReplyModel { handled: true, ..unchanged }
    } else if k < 0 {
        ReplyModel { handled: true, ..unchanged }
    } else {
        let alive = nodes.update(k, DhtNode { status: nodes[k].status | ALIVE, ..nodes[k] });
        ReplyModel {
            handled: true,
            nodes: truncate(sort_by_key(merge_nodes(alive, body_nodes(body)), target), MAX_NODES as int),
            peers: body_peers(body),
            token: body_token(body),
        }
    }
}

/// What handling a reply gives: whether it belonged to the lookup, the
/// peers it carries and the token it hands out.
#[derive(Debug)]
pub struct ReplyOutcome {
    pub handled: bool,
    pub peers: Vec<SockAddr>,
    pub token: Option<Vec<u8>>,
}

/// The first node with this address.
fn find_node_addr(nodes: &Vec<DhtNode>, addr: &SockAddr) -> (r: Option<usize>)
    ensures
        match r {
            Some(i) => find_addr(nodes@, *addr) == i,
            None => find_addr(nodes@, *addr) == -1,
        },
{
    let mut i: usize = 0;
    while i < nodes.len()
        invariant
            i <= nodes@.len(),
            find_addr(nodes@.take(i as int), *addr) == -1,
        decreases nodes@.len() - i,
    {
        proof {
            assert(nodes@.take(i + 1).drop_last() =~= nodes@.take(i as int));
        }
        if nodes[i].addr == *addr {
            proof {
                lemma_find_addr_prefix(nodes@, *addr, i + 1);
            }
            return Some(i);
        }
        i = i + 1;
    }
    assert(nodes@.take(nodes@.len() as int) =~= nodes@);
    None
}

/// A found address is that of a node.
proof fn lemma_find_addr_bounds(nodes: Seq<DhtNode>, addr: SockAddr)
    ensures
        find_addr(nodes, addr) >= -1,
        find_addr(nodes, addr) < nodes.len(),
        find_addr(nodes, addr) >= 0 ==> nodes[find_addr(nodes, addr)].addr == addr,
    decreases nodes.len(),
{
    if nodes.len() > 0 {
        lemma_find_addr_bounds(nodes.drop_last(), addr);
    }
}

/// Once a prefix holds the address, the whole sequence finds it there.
proof fn lemma_find_addr_prefix(nodes: Seq<DhtNode>, addr: SockAddr, n: int)
    requires
        0 <= n <= nodes.len(),
        find_addr(nodes.take(n), addr) >= 0,
    ensures
        find_addr(nodes, addr) == find_addr(nodes.take(n), addr),
    decreases nodes.len() - n,
{
    if n < nodes.len() {
        assert(nodes.take(n + 1).drop_last() =~= nodes.take(n));
        lemma_find_addr_prefix(nodes, addr, n + 1);
    } else {
        assert(nodes.take(n) =~= nodes);
    }
}

/// Whether a node with this id is known.
fn has_id(nodes: &Vec<DhtNode>, id: &NodeId) -> (r: bool)
    ensures
        r == has_node_id(nodes@, id@),
{
    let mut i: usize = 0;
    while i < nodes.len()
        invariant
            i <= nodes@.len(),
            forall|j: int| 0 <= j < i ==> (#[trigger] nodes@[j]).id@ != id@,
        decreases nodes@.len() - i,
    {
        if nodes[i].id.same(id) {
            return true;
        }
        i = i + 1;
    }
    false
}

/// The first node with this id, from position `i` on (-1 when none).
pub open spec fn first_with_id(nodes: Seq<DhtNode>, id: Seq<u8>, i: int) -> int
    decreases nodes.len() - i,
{
    if i < 0 || i >= nodes.len() {
        -1
    } else if nodes[i].id@ == id {
        i
    } else {
        first_with_id(nodes, id, i + 1)
    }
}

/// The nodes with the first one of this id marked failed.
pub open spec fn mark_failed(nodes: Seq<DhtNode>, id: Seq<u8>) -> Seq<DhtNode> {
    let k = first_with_id(nodes, id, 0);
    if k < 0 {
        nodes
    } else {
        nodes.update(k, DhtNode { status: nodes[k].status | FAILED, ..nodes[k] })
    }
}

/// The nodes after marking failed, in turn, the node of each timed-out
/// query.
pub open spec fn mark_all_failed(nodes: Seq<DhtNode>, gone: Seq<(TxnId, Request)>) -> Seq<DhtNode>
    decreases gone.len(),
{
    if gone.len() == 0 {
        nodes
    } else {
        mark_failed(mark_all_failed(nodes, gone.drop_last()), gone.last().1.id@)
    }
}

proof fn lemma_first_with_id_bounds(nodes: Seq<DhtNode>, id: Seq<u8>, i: int)
    requires
        0 <= i,
    ensures
        first_with_id(nodes, id, i) == -1 || (i <= first_with_id(nodes, id, i) < nodes.len()
            && nodes[first_with_id(nodes, id, i)].id@ == id),
    decreases nodes.len() - i,
{
    if i < nodes.len() && nodes[i].id@ != id {
        lemma_first_with_id_bounds(nodes, id, i + 1);
    }
}

/// What counting a timeout of the node of query `e` makes of a table when
/// its id is known (nothing otherwise).
pub open spec fn failed_step(t0: RoutingTable, t1: RoutingTable, e: (TxnId, Request)) -> bool {
    if e.1.has_id {
        failed_effect(t0, t1, e.1.id@)
    } else {
        t1 == t0
    }
}

/// Whether the tables `ts` go from `t0` to `t1`, one query of `gone` at a
/// time.
pub open spec fn chain_ok(ts: Seq<RoutingTable>, t0: RoutingTable, t1: RoutingTable, gone: Seq<(TxnId, Request)>) -> bool {
    &&& ts.len() == gone.len() + 1
    &&& ts[0] == t0
    &&& ts[gone.len() as int] == t1
    &&& forall|i: int| 0 <= i < gone.len() ==> failed_step(#[trigger] ts[i], ts[i + 1], gone[i])
}

/// Whether `t1` is what counting, in turn, a timeout of the node of each
/// query of `gone` whose id is known makes of `t0`.
pub open spec fn failed_chain(t0: RoutingTable, t1: RoutingTable, gone: Seq<(TxnId, Request)>) -> bool {
    exists|ts: Seq<RoutingTable>| #[trigger] chain_ok(ts, t0, t1, gone)
}

/// What pruning at time `now`, against table `t`, makes of a lookup: the
/// queries that timed out or whose node left the table are no longer
/// awaited and their nodes are marked failed.
pub open spec fn pruned(l0: Lookup, l1: Lookup, now: u64, t: RoutingTable) -> bool {
    let gone = l0.txns.spec_pending().filter(|e: (TxnId, Request)| stale(e, now, l0.txns.spec_timeout(), t));
    &&& l1.target == l0.target
    &&& l1.own_id == l0.own_id
    &&& l1.branch_factor == l0.branch_factor
    &&& l1.txns.spec_timeout() == l0.txns.spec_timeout()
    &&& l1.txns.spec_pending() == l0.txns.spec_pending().filter(
        |e: (TxnId, Request)| !stale(e, now, l0.txns.spec_timeout(), t),
    )
    &&& l1.nodes@ == mark_all_failed(l0.nodes@, gone)
}

/// The position of the first node with this id.
fn find_node_id(nodes: &Vec<DhtNode>, id: &NodeId) -> (r: Option<usize>)
    ensures
        match r {
            Some(k) => first_with_id(nodes@, id@, 0) == k as int,
            None => first_with_id(nodes@, id@, 0) == -1,
        },
{
    let mut i: usize = 0;
    while i < nodes.len()
        invariant
            i <= nodes@.len(),
            first_with_id(nodes@, id@, 0) == first_with_id(nodes@, id@, i as int),
        decreases nodes@.len() - i,
    {
        if nodes[i].id.same(id) {
            return Some(i);
        }
        i = i + 1;
    }
    None
}

impl Lookup {
    /// Gives up on the queries whose timeout is out at time `now`, and on
    /// those whose node has left the table: the table counts a timeout of
    /// each one's node when its id is known, and the lookup marks that node
    /// failed.
    pub fn prune(&mut self, now: u64, table: &mut RoutingTable)
        requires
            old(table).wf(),
        ensures
            final(table).wf(),
            final(table).own_id == old(table).own_id,
            forall|id2: Seq<u8>, addr: SockAddr| #[trigger] final(table).has(id2, addr) == old(table).has(id2, addr),
            pruned(*old(self), *final(self), now, *old(table)),
            failed_chain(
                *old(table),
                *final(table),
                old(self).txns.spec_pending().filter(|e: (TxnId, Request)| stale(e, now, old(self).txns.spec_timeout(), *old(table))),
            ),
    {
        let gone = self.txns.take_stale(now, table);
        let ghost nodes0 = self.nodes@;
        let ghost target0 = self.target;
        let ghost own0 = self.own_id;
        let ghost bf0 = self.branch_factor;
        let ghost txns0 = self.txns.spec_pending();
        let ghost to0 = self.txns.spec_timeout();
        let ghost mut ts: Seq<RoutingTable> = seq![*table];
        let mut i: usize = 0;
        while i < gone.len()
            invariant
                i <= gone@.len(),
                self.target == target0,
                self.own_id == own0,
                self.branch_factor == bf0,
                self.txns.spec_pending() == txns0,
                self.txns.spec_timeout() == to0,
                table.wf(),
                table.own_id == old(table).own_id,
                forall|id2: Seq<u8>, addr: SockAddr| #[trigger] table.has(id2, addr) == old(table).has(id2, addr),
                self.nodes@ == mark_all_failed(nodes0, gone@.take(i as int)),
                chain_ok(ts, *old(table), *table, gone@.take(i as int)),
            decreases gone@.len() - i,
        {
            let req = gone[i].1;
            let ghost tm = *table;
            if req.has_id {
                table.failed(&req.id);
            }
            proof {
                let t = gone@.take(i + 1);
                assert(t.len() == i + 1);
                assert(t.drop_last() =~= gone@.take(i as int));
                assert(t.last() == gone@[i as int]);
                assert(t.last().1 == req);
                if req.has_id {
                    assert(failed_effect(tm, *table, t.last().1.id@));
                } else {
                    assert(*table == tm);
                }
                let ts2 = ts.push(*table);
                assert forall|k: int| 0 <= k < t.len() implies failed_step(#[trigger] ts2[k], ts2[k + 1], t[k]) by {
                    if k < i {
                        assert(ts2[k] == ts[k] && ts2[k + 1] == ts[k + 1]);
                        assert(t[k] == gone@.take(i as int)[k]);
                    } else {
                        assert(ts2[k] == tm);
                    }
                }
                ts = ts2;
            }
            proof {
                assert(gone@.take(i + 1).drop_last() =~= gone@.take(i as int));
                lemma_first_with_id_bounds(self.nodes@, req.id@, 0);
            }
            match find_node_id(&self.nodes, &req.id) {
                Some(k) => {
                    let mut n = self.nodes[k];
                    n.status = n.status | FAILED;
                    self.nodes.set(k, n);
                },
                None => {},
            }
            assert(self.nodes@ =~= mark_all_failed(nodes0, gone@.take(i + 1)));
            i = i + 1;
        }
        assert(gone@.take(gone@.len() as int) =~= gone@);
        assert(chain_ok(ts, *old(table), *table, gone@));
    }
}

impl Lookup {
    /// The invariant of a lookup: a positive branch factor.
    pub open spec fn wf(&self) -> bool {
        self.branch_factor > 0
    }

    /// A round of queries starts at the first node with nothing counted.
    pub fn invoke_start(&self) -> (r: InvokeCursor)
        ensures
            r.next == 0 && r.outstanding == 0 && r.alive == 0,
    {
        InvokeCursor { next: 0, outstanding: 0, alive: 0 }
    }

    /// The next node of the round to query, counting the alive and
    /// outstanding nodes passed; `Finished` when the round stops (all
    /// nodes looked at, eight alive, or as many outstanding as the branch
    /// factor).
    pub fn invoke_next(&self, cur: &mut InvokeCursor) -> (r: InvokeStep)
        requires
            old(cur).outstanding <= self.branch_factor,
            old(cur).alive <= MAX_ALIVE,
        ensures
            ({
                let (i, o, a) = scan(
                    self.nodes@,
                    self.branch_factor as int,
                    old(cur).next as int,
                    old(cur).outstanding as int,
                    old(cur).alive as int,
                );
                &&& final(cur).outstanding == o
                &&& final(cur).alive == a
                &&& i == -1 ==> r == InvokeStep::Finished
                &&& i >= 0 ==> r == InvokeStep::Query(i as usize) && final(cur).next == i
                    && (i as int) < self.nodes@.len() && o < self.branch_factor && a < MAX_ALIVE
            }),
            r matches InvokeStep::Query(i) ==> round_pick(
                self.nodes@,
                self.branch_factor as int,
                old(cur).next as int,
                old(cur).outstanding as int,
                old(cur).alive as int,
                i as int,
            ),
            r is Finished ==> forall|j: int|
                !#[trigger] round_pick(
                    self.nodes@,
                    self.branch_factor as int,
                    old(cur).next as int,
                    old(cur).outstanding as int,
                    old(cur).alive as int,
                    j,
                ),
    {
        proof {
            lemma_scan_bounds(
                self.nodes@,
                self.branch_factor as int,
                cur.next as int,
                cur.outstanding as int,
                cur.alive as int,
            );
        }
        while cur.next < self.nodes.len()
            invariant
                cur.outstanding <= self.branch_factor,
                cur.alive <= MAX_ALIVE,
                old(cur).outstanding <= self.branch_factor,
                old(cur).alive <= MAX_ALIVE,
                scan(self.nodes@, self.branch_factor as int, cur.next as int, cur.outstanding as int, cur.alive as int)
                    == scan(
                    self.nodes@,
                    self.branch_factor as int,
                    old(cur).next as int,
                    old(cur).outstanding as int,
                    old(cur).alive as int,
                ),
            decreases self.nodes@.len() - cur.next,
        {
            if cur.alive == MAX_ALIVE || cur.outstanding == self.branch_factor {
                proof {
                    law_round_pick(self.nodes@, self.branch_factor as int, old(cur).next as int, old(cur).outstanding as int, old(cur).alive as int);
                }
                return InvokeStep::Finished;
            }
            let st = self.nodes[cur.next].status;
            if st & ALIVE == ALIVE {
                cur.alive = cur.alive + 1;
            } else if st & QUERIED == QUERIED {
                if st & FAILED != FAILED {
                    cur.outstanding = cur.outstanding + 1;
                }
            } else {
                proof {
                    law_round_pick(self.nodes@, self.branch_factor as int, old(cur).next as int, old(cur).outstanding as int, old(cur).alive as int);
                }
                return InvokeStep::Query(cur.next);
            }
            cur.next = cur.next + 1;
        }
        proof {
            law_round_pick(self.nodes@, self.branch_factor as int, old(cur).next as int, old(cur).outstanding as int, old(cur).alive as int);
        }
        InvokeStep::Finished
    }

    /// Records the sending, at time `now`, of the query to node `index`
    /// under transaction `txn_id`: queried and awaited when it went out,
    /// failed when not.
    pub fn invoke_sent(&mut self, cur: &mut InvokeCursor, index: usize, txn_id: TxnId, ok: bool, now: u64)
        requires
            index < old(self).nodes@.len(),
            old(cur).next == index,
            old(cur).outstanding < old(self).branch_factor,
        ensures
            final(self).target == old(self).target,
            final(self).own_id == old(self).own_id,
            final(self).branch_factor == old(self).branch_factor,
            final(cur).next == index + 1,
            final(cur).alive == old(cur).alive,
            final(cur).outstanding == if ok { old(cur).outstanding + 1 } else { old(cur).outstanding as int },
            final(self).nodes@ == old(self).nodes@.update(
                index as int,
                DhtNode {
                    status: old(self).nodes@[index as int].status | if ok { QUERIED } else { FAILED },
                    ..old(self).nodes@[index as int]
                },
            ),
            ok ==> final(self).txns.spec_pending() == txn_without(old(self).txns.spec_pending(), txn_id.0).push(
                (
                    txn_id,
                    Request {
                        id: old(self).nodes@[index as int].id,
                        has_id: !has_flag(old(self).nodes@[index as int].status, NO_ID),
                        addr: old(self).nodes@[index as int].addr,
                        sent: now,
                        traversal_id: 0,
                    },
                ),
            ),
            !ok ==> final(self).txns.spec_pending() == old(self).txns.spec_pending(),
            final(self).txns.spec_timeout() == old(self).txns.spec_timeout(),
    {
        let len = self.nodes.len();
        let mut n = self.nodes[index];
        let known = n.status & NO_ID != NO_ID;
        if ok {
            n.status = n.status | QUERIED;
            self.txns.insert(txn_id, &n.id, known, &n.addr, now, 0);
            cur.outstanding = cur.outstanding + 1;
        } else {
            n.status = n.status | FAILED;
        }
        self.nodes.set(index, n);
        cur.next = index + 1;
    }
}

/// The entries of a reply's values dictionary (none when it does not
/// parse).
fn entries_of_body(body: &Vec<u8>) -> (r: Vec<BEntry>)
    ensures
        entries_view(r@) == body_entries(body@),
{
    match parse_dict(body.as_slice()) {
        Some(Some(es)) => es,
        _ => {
            let v: Vec<BEntry> = Vec::new();
            assert(entries_view(v@) =~= Seq::<(Seq<u8>, BVal)>::empty());
            v
        },
    }
}

/// The peers of a list of parsed items.
fn peers_of_items(items: &Vec<BValue>) -> (r: Vec<SockAddr>)
    ensures
        r@ == peers_of(items@.map_values(|x: BValue| x@)),
{
    let ghost vs = items@.map_values(|x: BValue| x@);
    let mut out: Vec<SockAddr> = Vec::new();
    let mut i: usize = 0;
    while i < items.len()
        invariant
            i <= items@.len(),
            vs == items@.map_values(|x: BValue| x@),
            out@ == peers_of(vs.take(i as int)),
        decreases items@.len() - i,
    {
        proof {
            assert(vs.take(i + 1).drop_last() =~= vs.take(i as int));
        }
        match &items[i] {
            BValue::Bytes(b) => {
                if b.len() == 6 {
                    out.push(crate::peer::v4(b.as_slice()));
                }
            },
            _ => {},
        }
        i = i + 1;
    }
    assert(vs.take(items@.len() as int) =~= vs);
    out
}

/// The peers a reply carries under `values`.
fn peers_of_body(es: &Vec<BEntry>, body: &Vec<u8>) -> (r: Vec<SockAddr>)
    requires
        entries_view(es@) == body_entries(body@),
    ensures
        r@ == body_peers(body@),
{
    match get_list(es, "values") {
        Some(raw) => match parse_list(raw.as_slice()) {
            Some(Some(items)) => peers_of_items(&items),
            _ => Vec::new(),
        },
        None => Vec::new(),
    }
}

/// Entry `k` of a compact list is what the list read from entry `k` starts
/// with.
proof fn lemma_compact_skip(b: Seq<u8>, k: int)
    requires
        0 <= k,
        26 * k + 26 <= b.len(),
    ensures
        compact_v4_at(b.skip(26 * k), 0) == compact_v4_at(b, k),
        b.skip(26 * k).skip(26) == b.skip(26 * (k + 1)),
{
    assert(b.skip(26 * k).subrange(0, 26) =~= b.subrange(26 * k, 26 * k + 26));
    assert(b.skip(26 * k).skip(26) =~= b.skip(26 * (k + 1)));
}

/// The pairs of id and address of contacts.
pub open spec fn contact_pairs(v: Seq<Contact>) -> Seq<(Seq<u8>, SockAddr)> {
    v.map_values(|c: Contact| (c.id@, c.addr))
}

/// The contacts of an IPv4 compact list; `None` when it is not a whole
/// number of entries.
fn compact_v4_list(b: &[u8]) -> (r: Option<Vec<Contact>>)
    ensures
        r is None <==> b@.len() % 26 != 0,
        r matches Some(v) ==> contact_pairs(v@) == Seq::new(b@.len() / 26, |i: int| compact_v4_at(b@, i)),
{
    let mut it = match CompactNodes::new(b) {
        Ok(it) => it,
        Err(_) => return None,
    };
    let ghost cs = Seq::new(b@.len() / 26, |i: int| compact_v4_at(b@, i));
    let mut out: Vec<Contact> = Vec::new();
    assert(b@.skip(0) =~= b@);
    loop
        invariant
            it.wf(),
            it.rest() == b@.skip(26 * out@.len() as int),
            b@.len() % 26 == 0,
            26 * out@.len() <= b@.len(),
            cs == Seq::new(b@.len() / 26, |i: int| compact_v4_at(b@, i)),
            contact_pairs(out@) == cs.take(out@.len() as int),
        decreases b@.len() - 26 * out@.len(),
    {
        match it.next() {
            None => {
                assert(cs.take(out@.len() as int) =~= cs);
                return Some(out);
            },
            Some(c) => {
                proof {
                    lemma_compact_skip(b@, out@.len() as int);
                }
                let ghost before = out@;
                out.push(c);
                assert(contact_pairs(out@) =~= cs.take(out@.len() as int)) by {
                    assert(contact_pairs(out@) =~= contact_pairs(before).push((c.id@, c.addr)));
                }
            },
        }
    }
}

/// Entry `k` of an IPv6 compact list is what the list read from entry `k`
/// starts with.
proof fn lemma_compact_v6_skip(b: Seq<u8>, k: int)
    requires
        0 <= k,
        38 * k + 38 <= b.len(),
    ensures
        compact_v6_at(b.skip(38 * k), 0) == compact_v6_at(b, k),
        b.skip(38 * k).skip(38) == b.skip(38 * (k + 1)),
{
    assert(b.skip(38 * k).subrange(0, 38) =~= b.subrange(38 * k, 38 * k + 38));
    assert(b.skip(38 * k).skip(38) =~= b.skip(38 * (k + 1)));
}

/// The contacts of an IPv6 compact list; `None` when it is not a whole
/// number of entries.
fn compact_v6_list(b: &[u8]) -> (r: Option<Vec<Contact>>)
    ensures
        r is None <==> b@.len() % 38 != 0,
        r matches Some(v) ==> contact_pairs(v@) == Seq::new(b@.len() / 38, |i: int| compact_v6_at(b@, i)),
{
    let mut it = match CompactNodesV6::new(b) {
        Ok(it) => it,
        Err(_) => return None,
    };
    let ghost cs = Seq::new(b@.len() / 38, |i: int| compact_v6_at(b@, i));
    let mut out: Vec<Contact> = Vec::new();
    assert(b@.skip(0) =~= b@);
    loop
        invariant
            it.wf(),
            it.rest() == b@.skip(38 * out@.len() as int),
            b@.len() % 38 == 0,
            38 * out@.len() <= b@.len(),
            cs == Seq::new(b@.len() / 38, |i: int| compact_v6_at(b@, i)),
            contact_pairs(out@) == cs.take(out@.len() as int),
        decreases b@.len() - 38 * out@.len(),
    {
        match it.next() {
            None => {
                assert(cs.take(out@.len() as int) =~= cs);
                return Some(out);
            },
            Some(c) => {
                proof {
                    lemma_compact_v6_skip(b@, out@.len() as int);
                }
                let ghost before = out@;
                out.push(c);
                assert(contact_pairs(out@) =~= cs.take(out@.len() as int)) by {
                    assert(contact_pairs(out@) =~= contact_pairs(before).push((c.id@, c.addr)));
                }
            },
        }
    }
}

/// The contacts a reply carries (see [`body_nodes`]).
fn read_body_nodes(es: &Vec<BEntry>, body: &Vec<u8>) -> (r: Vec<Contact>)
    requires
        entries_view(es@) == body_entries(body@),
    ensures
        contact_pairs(r@) == body_nodes(body@),
{
    let mut v4 = match get_bytes(es, "nodes") {
        Some(b) => match compact_v4_list(b.as_slice()) {
            Some(v) => v,
            None => return Vec::new(),
        },
        None => Vec::new(),
    };
    let ghost p4 = contact_pairs(v4@);
    assert(body_nodes_v4(body@) == Some(p4));
    let mut v6 = match get_bytes(es, "nodes6") {
        Some(b) => match compact_v6_list(b.as_slice()) {
            Some(v) => v,
            None => return v4,
        },
        None => Vec::new(),
    };
    let ghost p6 = contact_pairs(v6@);
    let ghost v6s = v6@;
    let ghost v4s = v4@;
    v4.append(&mut v6);
    assert(contact_pairs(v4@) =~= p4 + p6) by {
        assert(v4@ == v4s + v6s);
    }
    v4
}

impl Lookup {
    /// Adds the contacts a reply carries to the routing table and to the
    /// lookup's nodes (those whose id it does not know yet).
    fn read_nodes(&mut self, es: &Vec<BEntry>, body: &Vec<u8>, table: &mut RoutingTable)
        requires
            entries_view(es@) == body_entries(body@),
            old(table).wf(),
        ensures
            final(table).wf(),
            final(table).own_id == old(table).own_id,
            final(table).router_nodes@ == old(table).router_nodes@,
            final(self).nodes@ == merge_nodes(old(self).nodes@, body_nodes(body@)),
            final(self).target == old(self).target,
            final(self).own_id == old(self).own_id,
            final(self).branch_factor == old(self).branch_factor,
            final(self).txns == old(self).txns,
            forall|id: Seq<u8>, a: SockAddr| #[trigger] final(table).has(id, a) ==> old(table).has(id, a)
                || body_nodes(body@).contains((id, a)),
    {
        let list = read_body_nodes(es, body);
        let ghost cs = body_nodes(body@);
        let ghost base = self.nodes@;
        let mut k: usize = 0;
        while k < list.len()
            invariant
                cs == body_nodes(body@),
                contact_pairs(list@) == cs,
                base == old(self).nodes@,
                k <= list@.len(),
                self.nodes@ == merge_nodes(base, cs.take(k as int)),
                table.wf(),
                table.own_id == old(table).own_id,
                table.router_nodes@ == old(table).router_nodes@,
                self.target == old(self).target,
                self.own_id == old(self).own_id,
                self.branch_factor == old(self).branch_factor,
                self.txns == old(self).txns,
                forall|id: Seq<u8>, a: SockAddr| #[trigger] table.has(id, a) ==> old(table).has(id, a)
                    || cs.take(k as int).contains((id, a)),
            decreases list@.len() - k,
        {
            let c = &list[k];
            proof {
                assert(cs.take(k + 1).drop_last() =~= cs.take(k as int));
                assert(cs[k as int] == (c.id@, c.addr));
                lemma_id_of(c.id);
            }
            let ghost t0 = *table;
            table.add_contact(&c.as_ref());
            proof {
                assert forall|id: Seq<u8>, a: SockAddr| #[trigger] table.has(id, a) implies old(table).has(id, a)
                    || cs.take(k + 1).contains((id, a)) by {
                    if t0.has(id, a) {
                        if cs.take(k as int).contains((id, a)) {
                            let j = choose|j: int| 0 <= j < k && cs.take(k as int)[j] == (id, a);
                            assert(cs.take(k + 1)[j] == (id, a));
                        }
                    } else {
                        assert(cs.take(k + 1)[k as int] == (id, a));
                    }
                }
            }
            if !has_id(&self.nodes, &c.id) {
                self.nodes.push(DhtNode { id: c.id, addr: c.addr, status: INITIAL });
            }
            k = k + 1;
        }
        assert(cs.take(k as int) =~= cs);
    }

    /// Handles a reply: the query of its transaction is no longer awaited;
    /// if it was ours, the reply belongs to the lookup, and the node asked
    /// is heard from (or, when `check_id` and the replier's id is not the
    /// one we asked, counted failed, and nothing else is read); when the
    /// reply comes from the address of one of the lookup's nodes, that node
    /// is known alive, the nodes the reply carries (`nodes`, then `nodes6`)
    /// join the table and the lookup, and the lookup keeps its hundred
    /// nodes closest to the target, closest first. The peers and the token
    /// of the reply are handed back.
    pub fn handle_reply(&mut self, check_id: bool, resp: &Response, addr: &SockAddr, table: &mut RoutingTable) -> (r: ReplyOutcome)
        requires
            old(table).wf(),
        ensures
            final(table).wf(),
            final(table).own_id == old(table).own_id,
            final(table).router_nodes@ == old(table).router_nodes@,
            final(self).target == old(self).target,
            final(self).own_id == old(self).own_id,
            final(self).branch_factor == old(self).branch_factor,
            final(self).txns.spec_pending() == txn_without(old(self).txns.spec_pending(), resp.txn_id.0),
            !r.handled ==> final(self).txns.spec_pending() == old(self).txns.spec_pending(),
            reply_table_effect(*old(table), *final(table), old(self).txns.spec_pending(), check_id, resp.txn_id.0, resp.id@, resp.body@),
            forall|id: Seq<u8>, a: SockAddr| #[trigger] final(table).has(id, a) ==> old(table).has(id, a)
                || body_nodes(resp.body@).contains((id, a)),
            ({
                let m = reply_effect(old(self).txns.spec_pending(), old(self).nodes@, old(self).target@, check_id, resp.txn_id.0, resp.id@, resp.body@, *addr);
                &&& r.handled == m.handled
                &&& final(self).nodes@ == m.nodes
                &&& r.peers@ == m.peers
                &&& match r.token {
                    Some(t) => m.token == Some(t@),
                    None => m.token is None,
                }
            }),
    {
        let none = ReplyOutcome { handled: false, peers: Vec::new(), token: None };
        let ghost pending0 = self.txns.spec_pending();
        let ghost mut tm = *table;
        match self.txns.remove(resp.txn_id) {
            None => {
                proof {
                    lemma_without_absent(pending0, resp.txn_id.0);
                }
                return none;
            },
            Some(req) => {
                if req.has_id {
                    if check_id && !req.id.same(&resp.id) {
                        table.failed(&req.id);
                        return ReplyOutcome { handled: true, peers: Vec::new(), token: None };
                    }
                    table.heard_from(&req.id);
                    proof {
                        tm = *table;
                    }
                }
            },
        }
        let k = match find_node_addr(&self.nodes, addr) {
            None => {
                return ReplyOutcome { handled: true, peers: Vec::new(), token: None };
            },
            Some(k) => k,
        };
        proof {
            lemma_find_addr_bounds(self.nodes@, *addr);
        }
        let mut n = self.nodes[k];
        n.status = n.status | ALIVE;
        self.nodes.set(k, n);
        let es = entries_of_body(&resp.body);
        self.read_nodes(&es, &resp.body, table);
        let token = match get_bytes(&es, "token") {
            Some(t) => Some(t.clone()),
            None => None,
        };
        let peers = peers_of_body(&es, &resp.body);
        let mut sorted = sort_nodes(&self.nodes, &self.target);
        sorted.truncate(MAX_NODES);
        self.nodes = sorted;
        ReplyOutcome { handled: true, peers, token }
    }
}


/// Dropping the queries of transaction `t` leaves what any other
/// transaction finds as it was.
proof fn lemma_lookup_without(p: Seq<(TxnId, Request)>, t: u16, u: u16)
    requires
        u != t,
    ensures
        txn_lookup(txn_without(p, t), u) == txn_lookup(p, u),
    decreases p.len(),
{
    reveal(Seq::filter);
    if p.len() > 0 {
        lemma_lookup_without(p.drop_last(), t, u);
        assert(txn_without(p, t) == if p.last().0.0 != t {
            txn_without(p.drop_last(), t).push(p.last())
        } else {
            txn_without(p.drop_last(), t)
        });
        if p.last().0.0 != t {
            assert(txn_without(p, t).drop_last() =~= txn_without(p.drop_last(), t));
        }
    }
}

/// A query recorded under transaction `t` (as [`Transactions::insert`]
/// records it) is what the answer of `t` finds, and recording it leaves
/// what every other transaction finds as it was.
pub proof fn law_txn_insert_then_lookup(p: Seq<(TxnId, Request)>, t: TxnId, req: Request, u: u16)
    ensures
        txn_lookup(txn_without(p, t.0).push((t, req)), t.0) == Some(req),
        u != t.0 ==> txn_lookup(txn_without(p, t.0).push((t, req)), u) == txn_lookup(p, u),
{
    let q = txn_without(p, t.0).push((t, req));
    assert(q.drop_last() =~= txn_without(p, t.0));
    if u != t.0 {
        lemma_lookup_without(p, t.0, u);
    }
}


/// Pruning against tables that hold the same ids is the same pruning.
pub proof fn lemma_pruned_same_ids(l0: Lookup, l1: Lookup, now: u64, t1: RoutingTable, t2: RoutingTable)
    requires
        pruned(l0, l1, now, t1),
        forall|id: Seq<u8>| #[trigger] t1.has_id(id) == t2.has_id(id),
    ensures
        pruned(l0, l1, now, t2),
{
    let to = l0.txns.spec_timeout();
    assert((|e: (TxnId, Request)| stale(e, now, to, t1)) =~= (|e: (TxnId, Request)| stale(e, now, to, t2)));
    assert((|e: (TxnId, Request)| !stale(e, now, to, t1)) =~= (|e: (TxnId, Request)| !stale(e, now, to, t2)));
}

} // verus!
