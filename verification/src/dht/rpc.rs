//! Answers to the queries other nodes send us.
use crate::bencode::{
    bdict, bint, bstr, bytes_value, entries_view, int_value, key, parse_dict, str_value, write_dict,
    entries_bytes, bencode_dict_of,
};
use crate::dht::contact::{endpoint_bytes, ContactRef, SockAddr};
use crate::dht::id::NodeId;
use crate::dht::msg::{bytes_at, get_bytes, txn_bytes, ErrorResponse, Query, QueryKind, Response, TxnId};
use crate::dht::traversal::{chain_ok, expired, failed_chain, failed_step, txn_lookup, txn_without, Request, Transactions};
use crate::dht::table::{closest_result, failed_effect, heard_from_effect, RoutingTable};
use crate::client::handshake::append_bytes;
use vstd::prelude::*;

verus! {

/// The address bytes of an endpoint: four for IPv4, sixteen for IPv6.
pub open spec fn ip_bytes(a: SockAddr) -> Seq<u8> {
    endpoint_bytes(a).take(endpoint_bytes(a).len() - 2)
}

/// Whether all twenty bytes of an id are zero.
pub open spec fn is_zero_id(id: Seq<u8>) -> bool {
    forall|i: int| 0 <= i < 20 ==> id[i] == 0
}

/// The port of an endpoint.
pub open spec fn port_of(a: SockAddr) -> u16 {
    match a {
        SockAddr::V4(_, p) => p,
        SockAddr::V6(_, p) => p,
    }
}

/// The info hash a query's arguments carry, if twenty bytes long.
pub open spec fn query_info_hash(args: Seq<u8>) -> Option<Seq<u8>> {
    match bencode_dict_of(args) {
        Some(Some(es)) => match bytes_at(es, key("info_hash")) {
            Some(ih) => if ih.len() == 20 {
                Some(ih)
            } else {
                None
            },
            None => None,
        },
        _ => None,
    }
}

/// A reply: our view of the querier's address (`ip`), the values (`r`),
/// the transaction id (`t`), and the marker of a reply (`y`).
pub open spec fn reply_bytes(addr: SockAddr, values: Seq<(Seq<u8>, Seq<u8>)>, txn: u16) -> Seq<u8> {
    bdict(
        seq![
            (key("ip"), bstr(ip_bytes(addr))),
            (key("r"), bdict(values)),
            (key("t"), bstr(txn_bytes(txn))),
            (key("y"), bstr(key("r"))),
        ],
    )
}

/// The compact forms of contacts, one after the other.
pub open spec fn compact_all(c: Seq<ContactRef>) -> Seq<u8>
    decreases c.len(),
{
    if c.len() == 0 {
        Seq::empty()
    } else {
        compact_all(c.drop_last()) + c.last().id@ + endpoint_bytes(c.last().addr)
    }
}

/// The compact form of a contact: its id, address and port.
fn write_compact(c: &ContactRef, out: &mut Vec<u8>)
    ensures
        final(out)@ == old(out)@ + c.id@ + endpoint_bytes(c.addr),
{
    let ghost b0 = out@;
    append_bytes(out, &c.id.0);
    let ep = endpoint_vec(&c.addr);
    append_bytes(out, ep.as_slice());
    assert(out@ =~= b0 + c.id@ + endpoint_bytes(c.addr));
}

/// The address and port bytes of an endpoint.
fn endpoint_vec(a: &SockAddr) -> (r: Vec<u8>)
    ensures
        r@ == endpoint_bytes(*a),
{
    let mut v: Vec<u8> = Vec::new();
    let port = match *a {
        SockAddr::V4(ip, port) => {
            v.push((ip / 0x100_0000) as u8);
            v.push((ip / 0x1_0000 % 256) as u8);
            v.push((ip / 0x100 % 256) as u8);
            v.push((ip % 256) as u8);
            port
        },
        SockAddr::V6(ip, port) => {
            let mut k: usize = 0;
            while k < 16
                invariant
                    k <= 16,
                    v@ == Seq::new(k as nat, |j: int| ((ip >> ((8 * (15 - j)) as u32)) & 0xff) as u8),
                decreases 16 - k,
            {
                let shift = (8 * (15 - k)) as u32;
                v.push(((ip >> shift) & 0xff) as u8);
                k = k + 1;
                assert(v@ =~= Seq::new(k as nat, |j: int| ((ip >> ((8 * (15 - j)) as u32)) & 0xff) as u8));
            }
            port
        },
    };
    v.push((port / 256) as u8);
    v.push((port % 256) as u8);
    assert(v@ =~= endpoint_bytes(*a));
    v
}

/// What a node keeps for its own queries and answers: the transaction
/// counter, its id, and the queries awaiting an answer.
pub struct RpcMgr {
    pub txn_id: TxnId,
    pub own_id: NodeId,
    pub txns: Transactions,
}

/// What an answer to one of our queries comes to.
#[derive(Debug, Clone, Copy)]
pub enum ResponseVerdict {
    /// No query waits under its transaction.
    Unknown,
    /// The replier is not the node queried; the table counted a timeout of
    /// that node and its traversal must count it failed.
    IdMismatch(Request),
    /// The answer goes to the query's traversal.
    Accepted(Request),
}

/// The verdict on an answer from node `resp_id` to the query `req` (if
/// one waited).
pub open spec fn verdict_of(req: Option<Request>, resp_id: Seq<u8>) -> ResponseVerdict {
    match req {
        None => ResponseVerdict::Unknown,
        Some(q) => if q.has_id && q.id@ != resp_id {
            ResponseVerdict::IdMismatch(q)
        } else {
            ResponseVerdict::Accepted(q)
        },
    }
}

impl RpcMgr {
    /// A manager for a node of id `own_id`, its transactions counted from
    /// zero.
    pub fn new(own_id: NodeId) -> (r: Self)
        ensures
            r.txn_id.0 == 0,
            r.own_id == own_id,
            r.txns.spec_pending().len() == 0,
            r.txns.spec_timeout() == 5000,
    {
        RpcMgr { txn_id: TxnId(0), own_id, txns: Transactions::new() }
    }

    /// Waits, from time `now`, for an answer to a query of traversal
    /// `traversal_id` sent under `txn_id` to `addr`. A zero id stands for
    /// a node whose id is unknown: a random one is kept instead.
    pub fn track(&mut self, txn_id: TxnId, id: &NodeId, addr: &SockAddr, traversal_id: usize, now: u64)
        ensures
            final(self).own_id == old(self).own_id,
            final(self).txn_id == old(self).txn_id,
            final(self).txns.spec_timeout() == old(self).txns.spec_timeout(),
            final(self).txns.spec_pending().len() == txn_without(old(self).txns.spec_pending(), txn_id.0).len() + 1,
            final(self).txns.spec_pending().drop_last() == txn_without(old(self).txns.spec_pending(), txn_id.0),
            ({
                let e = final(self).txns.spec_pending().last();
                &&& e.0 == txn_id
                &&& e.1.has_id == !is_zero_id(id@)
                &&& e.1.addr == *addr
                &&& e.1.sent == now
                &&& e.1.traversal_id == traversal_id
                &&& !is_zero_id(id@) ==> e.1.id == *id
            }),
    {
        let zero = id.is_zero();
        let kept = if zero {
            NodeId::gen()
        } else {
            *id
        };
        self.txns.insert(txn_id, &kept, !zero, addr, now, traversal_id);
    }

    /// Takes an answer to one of our queries: the query stops waiting; a
    /// replier with the id queried is heard from, one with another id
    /// counts a timeout of the node queried.
    pub fn handle_ok(&mut self, resp: &Response, table: &mut RoutingTable) -> (r: ResponseVerdict)
        requires
            old(table).wf(),
        ensures
            final(table).wf(),
            final(table).own_id == old(table).own_id,
            forall|id2: Seq<u8>, a2: SockAddr| #[trigger] final(table).has(id2, a2) == old(table).has(id2, a2),
            final(self).own_id == old(self).own_id,
            final(self).txn_id == old(self).txn_id,
            final(self).txns.spec_timeout() == old(self).txns.spec_timeout(),
            final(self).txns.spec_pending() == txn_without(old(self).txns.spec_pending(), resp.txn_id.0),
            r == verdict_of(txn_lookup(old(self).txns.spec_pending(), resp.txn_id.0), resp.id@),
            match r {
                ResponseVerdict::Unknown => *final(table) == *old(table),
                ResponseVerdict::IdMismatch(q) => failed_effect(*old(table), *final(table), q.id@),
                ResponseVerdict::Accepted(q) => if q.has_id {
                    heard_from_effect(*old(table), *final(table), q.id@)
                } else {
                    *final(table) == *old(table)
                },
            },
    {
        let req = match self.txns.remove(resp.txn_id) {
            Some(q) => q,
            None => {
                return ResponseVerdict::Unknown;
            },
        };
        if req.has_id && req.id.same(&resp.id) {
            table.heard_from(&req.id);
            ResponseVerdict::Accepted(req)
        } else if req.has_id {
            table.failed(&req.id);
            ResponseVerdict::IdMismatch(req)
        } else {
            ResponseVerdict::Accepted(req)
        }
    }

    /// Takes an error answer to one of our queries: the query stops
    /// waiting and is given back for its traversal to count failed; the
    /// table counts a timeout of its node when the id is known.
    pub fn handle_error(&mut self, err: &ErrorResponse, table: &mut RoutingTable) -> (r: Option<Request>)
        requires
            old(table).wf(),
        ensures
            final(table).wf(),
            final(table).own_id == old(table).own_id,
            forall|id2: Seq<u8>, a2: SockAddr| #[trigger] final(table).has(id2, a2) == old(table).has(id2, a2),
            final(self).own_id == old(self).own_id,
            final(self).txn_id == old(self).txn_id,
            final(self).txns.spec_timeout() == old(self).txns.spec_timeout(),
            final(self).txns.spec_pending() == txn_without(old(self).txns.spec_pending(), err.txn_id.0),
            r == txn_lookup(old(self).txns.spec_pending(), err.txn_id.0),
            match r {
                Some(q) => if q.has_id {
                    failed_effect(*old(table), *final(table), q.id@)
                } else {
                    *final(table) == *old(table)
                },
                None => *final(table) == *old(table),
            },
    {
        let req = self.txns.remove(err.txn_id);
        match req {
            Some(q) => {
                if q.has_id {
                    table.failed(&q.id);
                }
            },
            None => {},
        }
        req
    }

    /// Gives up on the queries whose timeout is out at time `now`, giving
    /// them back for their traversals to count failed; the table counts a
    /// timeout of each one's node when the id is known.
    pub fn check_timeouts(&mut self, now: u64, table: &mut RoutingTable) -> (r: Vec<(TxnId, Request)>)
        requires
            old(table).wf(),
        ensures
            final(table).wf(),
            final(table).own_id == old(table).own_id,
            forall|id2: Seq<u8>, a2: SockAddr| #[trigger] final(table).has(id2, a2) == old(table).has(id2, a2),
            final(self).own_id == old(self).own_id,
            final(self).txn_id == old(self).txn_id,
            final(self).txns.spec_timeout() == old(self).txns.spec_timeout(),
            r@ == old(self).txns.spec_pending().filter(|e: (TxnId, Request)| expired(e, now, old(self).txns.spec_timeout())),
            final(self).txns.spec_pending() == old(self).txns.spec_pending().filter(
                |e: (TxnId, Request)| !expired(e, now, old(self).txns.spec_timeout()),
            ),
            failed_chain(*old(table), *final(table), r@),
    {
        let gone = self.txns.take_expired(now);
        let ghost mut ts: Seq<RoutingTable> = seq![*table];
        let mut i: usize = 0;
        while i < gone.len()
            invariant
                i <= gone@.len(),
                table.wf(),
                table.own_id == old(table).own_id,
                forall|id2: Seq<u8>, a2: SockAddr| #[trigger] table.has(id2, a2) == old(table).has(id2, a2),
                chain_ok(ts, *old(table), *table, gone@.take(i as int)),
            decreases gone@.len() - i,
        {
            let ghost tm = *table;
            if gone[i].1.has_id {
                table.failed(&gone[i].1.id);
            }
            proof {
                let t = gone@.take(i + 1);
                assert(t.len() == i + 1);
                assert(t.last() == gone@[i as int]);
                let ts2 = ts.push(*table);
                assert forall|k: int| 0 <= k < t.len() implies failed_step(#[trigger] ts2[k], ts2[k + 1], t[k]) by {
                    if k < i {
                        assert(ts2[k] == ts[k] && ts2[k + 1] == ts[k + 1]);
                        assert(t[k] == gone@.take(i as int)[k]);
                    } else {
                        assert(ts2[k] == tm);
                    }
                }
                ts = ts2;
            }
            i = i + 1;
        }
        assert(gone@.take(gone@.len() as int) =~= gone@);
        assert(chain_ok(ts, *old(table), *table, gone@));
        gone
    }

    /// A fresh transaction id: the counter, which then steps on.
    pub fn new_txn(&mut self) -> (r: TxnId)
        ensures
            r == old(self).txn_id,
            final(self).own_id == old(self).own_id,
            final(self).txn_id.0 == if old(self).txn_id.0 == u16::MAX { 0 } else { (old(self).txn_id.0 + 1) as u16 },
    {
        self.txn_id.next_id()
    }

    /// Answers a query from `addr`: the querier is heard from, and the
    /// answer carries our id, for `find_node` and `get_peers` the compact
    /// contacts (id, address, port) closest to the queried info hash, and
    /// the querier's port. A `find_node` or `get_peers` query without a
    /// twenty-byte `info_hash` gets no answer.
    pub fn handle_query(&self, query: &Query, addr: &SockAddr, table: &mut RoutingTable) -> (r: Option<Vec<u8>>)
        requires
            old(table).wf(),
        ensures
            final(table).wf(),
            final(table).own_id == old(table).own_id,
            final(table).router_nodes@ == old(table).router_nodes@,
            heard_from_effect(*old(table), *final(table), query.id@),
            (query.kind == QueryKind::Ping || query.kind == QueryKind::AnnouncePeer) ==> (r matches Some(b)
                && b@ == reply_bytes(
                *addr,
                seq![(key("id"), bstr(self.own_id@)), (key("p"), bint(port_of(*addr) as int))],
                query.txn_id.0,
            )),
            (query.kind == QueryKind::FindNode || query.kind == QueryKind::GetPeers) ==> (r is None
                <==> query_info_hash(query.args@) is None),
            (query.kind == QueryKind::FindNode || query.kind == QueryKind::GetPeers) ==> (r matches Some(b)
                ==> exists|c: Seq<ContactRef>|
                closest_result(*final(table), query_info_hash(query.args@)->0, Seq::empty(), 8, c) && b@
                    == reply_bytes(
                    *addr,
                    seq![
                        (key("id"), bstr(self.own_id@)),
                        (key("nodes"), bstr(compact_all(c))),
                        (key("p"), bint(port_of(*addr) as int)),
                    ],
                    query.txn_id.0,
                )),
    {
        table.heard_from(&query.id);
        let port = match *addr {
            SockAddr::V4(_, p) => p,
            SockAddr::V6(_, p) => p,
        };
        let ghost mut nodes_seen: Seq<u8> = Seq::empty();
        let values = match query.kind {
            QueryKind::Ping | QueryKind::AnnouncePeer => {
                let v = vec![("id", bytes_value(&self.own_id.0)), ("p", int_value(port as i64))];
                assert(entries_bytes(v@) =~= seq![(key("id"), bstr(self.own_id@)), (key("p"), bint(port_of(*addr) as int))]);
                v
            },
            QueryKind::FindNode | QueryKind::GetPeers => {
                let es = match parse_dict(query.args.as_slice()) {
                    Some(Some(es)) => es,
                    _ => {
                        return None;
                    },
                };
                let ih = match get_bytes(&es, "info_hash") {
                    Some(ih) => ih,
                    None => {
                        return None;
                    },
                };
                if ih.len() != 20 {
                    return None;
                }
                let target = NodeId::from_slice_20(ih.as_slice());
                let mut out: Vec<ContactRef> = Vec::new();
                assert(out@ =~= Seq::<ContactRef>::empty());
                table.find_closest(&target, &mut out, 8);
                let mut nodes: Vec<u8> = Vec::new();
                let mut i: usize = 0;
                while i < out.len()
                    invariant
                        i <= out@.len(),
                        nodes@ == compact_all(out@.take(i as int)),
                    decreases out@.len() - i,
                {
                    proof {
                        assert(out@.take(i + 1).drop_last() =~= out@.take(i as int));
                    }
                    write_compact(&out[i], &mut nodes);
                    i = i + 1;
                }
                assert(out@.take(out@.len() as int) =~= out@);
                let v = vec![("id", bytes_value(&self.own_id.0)), ("nodes", bytes_value(nodes.as_slice())), ("p", int_value(port as i64))];
                proof {
                    nodes_seen = nodes@;
                }
                assert(entries_bytes(v@) =~= seq![
                    (key("id"), bstr(self.own_id@)),
                    (key("nodes"), bstr(nodes_seen)),
                    (key("p"), bint(port_of(*addr) as int)),
                ]);
                v
            },
        };
        let ep = endpoint_vec(addr);
        let ip = vstd::slice::slice_subrange(ep.as_slice(), 0, ep.len() - 2);
        let mut r: Vec<u8> = Vec::new();
        write_dict(&mut r, &values);
        let entries = vec![("ip", bytes_value(ip)), ("r", r), ("t", query.txn_id.encode_to_vec()), ("y", str_value("r"))];
        let mut out: Vec<u8> = Vec::new();
        write_dict(&mut out, &entries);
        proof {
            assert(ip@ =~= ip_bytes(*addr));
            assert(entries_bytes(entries@) =~= seq![
                (key("ip"), bstr(ip_bytes(*addr))),
                (key("r"), bdict(entries_bytes(values@))),
                (key("t"), bstr(txn_bytes(query.txn_id.0))),
                (key("y"), bstr(key("r"))),
            ]);
        }
        proof {
            if query.kind == QueryKind::FindNode || query.kind == QueryKind::GetPeers {
                assert(out@ == reply_bytes(
                    *addr,
                    seq![
                        (key("id"), bstr(self.own_id@)),
                        (key("nodes"), bstr(nodes_seen)),
                        (key("p"), bint(port_of(*addr) as int)),
                    ],
                    query.txn_id.0,
                ));
            }
        }
        Some(out)
    }
}

} // verus!
