//! Announcing to trackers: the requests, the tracker's answer read from
//! its bencoding (HTTP) or its packets (UDP), and when to announce again.
use crate::bencode::{bencode_dict_of, bencode_list_of, entries_view, find, key, lookup, parse_dict, parse_list, BEntry, BVal, BValue};
use crate::dht::contact::{be_num, SockAddr};
use crate::dht::msg::{bytes_at, get_bytes};
use crate::metainfo::{url_escape, url_escaped_bytes, InfoHash};
use crate::netaddr::{ip_addr_text, ip_with_port, parse_ip};
use crate::msg::{be32, from_be32};
use crate::peer::{v4, v6, PeerId};
use crate::urltext::{from_utf8, parse_url, url_of, utf8_of, UrlModel};
use crate::clock::now;
use crate::bencode::bytes_eq;
use crate::client::handshake::append_bytes;
use std::time::Instant;
use vstd::utf8::encode_utf8;
use vstd::prelude::*;

verus! {

/// The shortest time between two announces to a tracker, in seconds.
pub const MIN_TRACKER_INTERVAL: u64 = 10;

/// The event an announce reports.
#[derive(Debug, Clone, Copy, PartialEq, Eq, Structural)]
pub enum Event {
    NoEvent,
    Completed,
    Started,
    Stopped,
}

/// The number of an event in a UDP announce.
pub open spec fn event_code(e: Event) -> u32 {
    match e {
        Event::NoEvent => 0,
        Event::Completed => 1,
        Event::Started => 2,
        Event::Stopped => 3,
    }
}

impl Event {
    /// The number of the event in a UDP announce.
    pub fn code(&self) -> (r: u32)
        ensures
            r == event_code(*self),
    {
        match self {
            Event::NoEvent => 0,
            Event::Completed => 1,
            Event::Started => 2,
            Event::Stopped => 3,
        }
    }
}

/// An announce to a tracker.
#[derive(Debug)]
pub struct AnnounceRequest {
    pub url: String,
    /// The tracker's address, once resolved (UDP trackers).
    pub resolved_addr: Option<SockAddr>,
    pub info_hash: InfoHash,
    pub peer_id: PeerId,
    pub port: u16,
    pub downloaded: u64,
    pub left: u64,
    pub uploaded: u64,
    pub event: Event,
}

impl AnnounceRequest {
    /// An announce with nothing transferred and no event.
    pub fn new(url: &str, resolved_addr: Option<SockAddr>, info_hash: &InfoHash, peer_id: &PeerId, port: u16) -> (r: Self)
        ensures
            r.url@ == url@,
            r.resolved_addr == resolved_addr,
            r.info_hash == *info_hash,
            r.peer_id == *peer_id,
            r.port == port,
            r.downloaded == 0 && r.left == 0 && r.uploaded == 0,
            r.event == Event::NoEvent,
    {
        AnnounceRequest {
            url: url.to_owned(),
            resolved_addr,
            info_hash: InfoHash(info_hash.0),
            peer_id: *peer_id,
            port,
            downloaded: 0,
            left: 0,
            uploaded: 0,
            event: Event::NoEvent,
        }
    }
}

/// A tracker's answer.
#[derive(Debug)]
pub struct AnnounceResponse {
    pub resolved_addr: Option<SockAddr>,
    /// Seconds to wait before the next announce.
    pub interval: u64,
    pub peers: Vec<SockAddr>,
    pub peers6: Vec<SockAddr>,
}

/// Why a tracker's answer was refused.
#[derive(Debug, Clone, Copy, PartialEq, Eq, Structural)]
pub enum AnnounceError {
    /// The answer is not bencoded data.
    Bencode,
    NotADict,
    PeerNotADict,
    IpNotPresent,
    /// A peer whose `ip` is not an IP address.
    InvalidIp,
    PortNotPresent,
    InvalidPortNumber,
    /// A compact peer list that is not a whole number of entries.
    InvalidPeerLen,
}

/// The seconds an answer asks us to wait: its `interval` when that is a
/// non-negative integer, else zero.
pub open spec fn interval_of(es: Seq<(Seq<u8>, BVal)>) -> u64 {
    match lookup(es, key("interval")) {
        Some(BVal::Int(i)) => if 0 <= i <= u64::MAX { i as u64 } else { 0 },
        _ => 0,
    }
}

/// The peer a list item of an answer names.
pub open spec fn list_peer(v: BVal) -> Result<SockAddr, AnnounceError> {
    match v {
        BVal::Dict(raw) => match bencode_dict_of(raw) {
            Some(Some(pe)) => match bytes_at(pe, key("ip")) {
                None => Err(AnnounceError::IpNotPresent),
                Some(ipb) => match utf8_of(ipb) {
                    None => Err(AnnounceError::IpNotPresent),
                    Some(text) => match ip_addr_text(text) {
                        None => Err(AnnounceError::InvalidIp),
                        Some(ip) => match lookup(pe, key("port")) {
                            None => Err(AnnounceError::PortNotPresent),
                            Some(BVal::Int(p)) => Ok(ip_with_port(ip, p as u16)),
                            Some(_) => Err(AnnounceError::InvalidPortNumber),
                        },
                    },
                },
            },
            _ => Err(AnnounceError::PeerNotADict),
        },
        _ => Err(AnnounceError::PeerNotADict),
    }
}

/// The peers the list items of an answer name, or the first error.
pub open spec fn list_peers(items: Seq<BVal>) -> Result<Seq<SockAddr>, AnnounceError>
    decreases items.len(),
{
    if items.len() == 0 {
        Ok(Seq::empty())
    } else {
        match list_peers(items.drop_last()) {
            Err(e) => Err(e),
            Ok(ps) => match list_peer(items.last()) {
                Err(e) => Err(e),
                Ok(p) => Ok(ps.push(p)),
            },
        }
    }
}

/// The addresses of a compact list of `n`-byte entries.
pub open spec fn compact_list(b: Seq<u8>, n: int) -> Seq<SockAddr> {
    Seq::new(
        (b.len() as int / n) as nat,
        |i: int|
            if n == 6 {
                SockAddr::V4(be_num(b.subrange(6 * i, 6 * i + 4)) as u32, be_num(b.subrange(6 * i + 4, 6 * i + 6)) as u16)
            } else {
                SockAddr::V6(
                    be_num(b.subrange(18 * i, 18 * i + 16)) as u128,
                    be_num(b.subrange(18 * i + 16, 18 * i + 18)) as u16,
                )
            },
    )
}

/// The IPv4 peers an answer names: a list of dictionaries, or compact
/// entries of six bytes (none when `peers` is missing or not bytes).
pub open spec fn peers_spec(es: Seq<(Seq<u8>, BVal)>) -> Result<Seq<SockAddr>, AnnounceError> {
    match lookup(es, key("peers")) {
        None => Ok(Seq::empty()),
        Some(BVal::List(raw)) => match bencode_list_of(raw) {
            Some(Some(items)) => list_peers(items),
            _ => Err(AnnounceError::PeerNotADict),
        },
        Some(v) => {
            let b = match v {
                BVal::Bytes(b) => b,
                _ => Seq::empty(),
            };
            if b.len() % 6 != 0 {
                Err(AnnounceError::InvalidPeerLen)
            } else {
                Ok(compact_list(b, 6))
            }
        },
    }
}

/// The IPv6 peers an answer names, in compact entries of eighteen bytes.
pub open spec fn peers6_spec(es: Seq<(Seq<u8>, BVal)>) -> Result<Seq<SockAddr>, AnnounceError> {
    let b = match bytes_at(es, key("peers6")) {
        Some(b) => b,
        None => Seq::empty(),
    };
    if b.len() % 18 != 0 {
        Err(AnnounceError::InvalidPeerLen)
    } else {
        Ok(compact_list(b, 18))
    }
}

/// The compact IPv6 peers of an answer's dictionary `es`: its `peers6`
/// bytes, or none.
pub open spec fn peers6_bytes(es: Seq<(Seq<u8>, BVal)>) -> Seq<u8> {
    match bytes_at(es, key("peers6")) {
        Some(b) => b,
        None => Seq::empty(),
    }
}

/// The compact IPv6 peers an answer gives are all its eighteen-byte
/// entries, in order, none left out: entry `i` names the address of its
/// first sixteen bytes and the port of its last two, big-endian.
pub proof fn law_peers6_all_entries(es: Seq<(Seq<u8>, BVal)>)
    ensures
        peers6_spec(es) is Ok <==> peers6_bytes(es).len() % 18 == 0,
        peers6_spec(es) is Ok ==> ({
            let b = peers6_bytes(es);
            let p6 = peers6_spec(es)->Ok_0;
            &&& p6.len() * 18 == b.len()
            &&& forall|i: int| 0 <= i < p6.len() ==> #[trigger] p6[i] == SockAddr::V6(
                be_num(b.subrange(18 * i, 18 * i + 16)) as u128,
                be_num(b.subrange(18 * i + 16, 18 * i + 18)) as u16,
            )
        }),
        response_spec(Some(Some(es))) is Ok ==> peers6_spec(es) is Ok
            && response_spec(Some(Some(es)))->Ok_0.2 == peers6_spec(es)->Ok_0,
{
    let b = peers6_bytes(es);
    if b.len() % 18 == 0 {
        vstd::arithmetic::div_mod::lemma_fundamental_div_mod(b.len() as int, 18);
    }
}

/// The compact IPv4 peers an answer gives, when `peers` holds bytes, are
/// all its six-byte entries, in order, none left out: entry `i` names the
/// address of its first four bytes and the port of its last two,
/// big-endian.
pub proof fn law_peers_all_entries(es: Seq<(Seq<u8>, BVal)>, b: Seq<u8>)
    requires
        lookup(es, key("peers")) == Some(BVal::Bytes(b)),
    ensures
        peers_spec(es) is Ok <==> b.len() % 6 == 0,
        peers_spec(es) is Ok ==> ({
            let ps = peers_spec(es)->Ok_0;
            &&& ps.len() * 6 == b.len()
            &&& forall|i: int| 0 <= i < ps.len() ==> #[trigger] ps[i] == SockAddr::V4(
                be_num(b.subrange(6 * i, 6 * i + 4)) as u32,
                be_num(b.subrange(6 * i + 4, 6 * i + 6)) as u16,
            )
        }),
        response_spec(Some(Some(es))) is Ok ==> peers_spec(es) is Ok
            && response_spec(Some(Some(es)))->Ok_0.1 == peers_spec(es)->Ok_0,
{
    if b.len() % 6 == 0 {
        vstd::arithmetic::div_mod::lemma_fundamental_div_mod(b.len() as int, 6);
    }
}

/// What an answer tells: its interval and peers, or the first error.
pub open spec fn response_spec(parsed: Option<Option<Seq<(Seq<u8>, BVal)>>>) -> Result<(u64, Seq<SockAddr>, Seq<SockAddr>), AnnounceError> {
    match parsed {
        None => Err(AnnounceError::Bencode),
        Some(None) => Err(AnnounceError::NotADict),
        Some(Some(es)) => match peers_spec(es) {
            Err(e) => Err(e),
            Ok(ps) => match peers6_spec(es) {
                Err(e) => Err(e),
                Ok(p6) => Ok((interval_of(es), ps, p6)),
            },
        },
    }
}

/// The addresses of compact entries of `n` bytes (six for IPv4, eighteen
/// for IPv6), `b` holding a whole number of them.
fn compact_addrs(b: &[u8], n: usize) -> (r: Vec<SockAddr>)
    requires
        n == 6 || n == 18,
        b@.len() % (n as nat) == 0,
    ensures
        r@ == compact_list(b@, n as int),
{
    let mut out: Vec<SockAddr> = Vec::new();
    let mut i: usize = 0;
    let len = b.len();
    let count = len / n;
    while i < count
        invariant
            len == b@.len(),
            count == len / n,
            n == 6 || n == 18,
            i <= count,
            out@.len() == i,
            forall|j: int| 0 <= j < i ==> #[trigger] out@[j] == compact_list(b@, n as int)[j],
        decreases count - i,
    {
        assert(n * i + n <= len) by (nonlinear_arith)
            requires
                i < count,
                count == len / n,
                n > 0,
        ;
        let chunk = vstd::slice::slice_subrange(b, n * i, n * i + n);
        let a = if n == 6 {
            v4(chunk)
        } else {
            v6(chunk)
        };
        proof {
            let bi = (n * i) as int;
            if n == 6 {
                assert(chunk@.subrange(0, 4) =~= b@.subrange(bi, bi + 4));
                assert(chunk@.subrange(4, 6) =~= b@.subrange(bi + 4, bi + 6));
            } else {
                assert(chunk@.subrange(0, 16) =~= b@.subrange(bi, bi + 16));
                assert(chunk@.subrange(16, 18) =~= b@.subrange(bi + 16, bi + 18));
            }
        }
        out.push(a);
        i = i + 1;
    }
    assert(out@ =~= compact_list(b@, n as int));
    out
}

/// The peer a list item of an answer names.
fn list_peer_exec(v: &BValue) -> (r: Result<SockAddr, AnnounceError>)
    ensures
        match r {
            Ok(p) => list_peer(v@) == Ok::<SockAddr, AnnounceError>(p),
            Err(e) => list_peer(v@) == Err::<SockAddr, AnnounceError>(e),
        },
{
    let raw = match v {
        BValue::Dict(raw) => raw,
        _ => {
            return Err(AnnounceError::PeerNotADict);
        },
    };
    let pe = match parse_dict(raw.as_slice()) {
        Some(Some(pe)) => pe,
        _ => {
            return Err(AnnounceError::PeerNotADict);
        },
    };
    let ipb = match get_bytes(&pe, "ip") {
        Some(b) => b,
        None => {
            return Err(AnnounceError::IpNotPresent);
        },
    };
    let text = match from_utf8(ipb.as_slice()) {
        Some(t) => t,
        None => {
            return Err(AnnounceError::IpNotPresent);
        },
    };
    let ip = match parse_ip(text) {
        Some(ip) => ip,
        None => {
            return Err(AnnounceError::InvalidIp);
        },
    };
    let port = match find(&pe, "port".as_bytes()) {
        None => {
            return Err(AnnounceError::PortNotPresent);
        },
        Some(BValue::Int(p)) => *p as u16,
        Some(_) => {
            return Err(AnnounceError::InvalidPortNumber);
        },
    };
    Ok(ip.with_port(port))
}

/// The peers the list items of an answer name, or the first error.
fn list_peers_exec(items: &Vec<BValue>) -> (r: Result<Vec<SockAddr>, AnnounceError>)
    ensures
        match r {
            Ok(ps) => list_peers(items@.map_values(|x: BValue| x@)) == Ok::<Seq<SockAddr>, AnnounceError>(ps@),
            Err(e) => list_peers(items@.map_values(|x: BValue| x@)) == Err::<Seq<SockAddr>, AnnounceError>(e),
        },
{
    let ghost vs = items@.map_values(|x: BValue| x@);
    let mut ps: Vec<SockAddr> = Vec::new();
    let mut i: usize = 0;
    assert(vs.take(0) =~= Seq::<BVal>::empty());
    assert(ps@ =~= Seq::<SockAddr>::empty());
    while i < items.len()
        invariant
            i <= items@.len(),
            vs == items@.map_values(|x: BValue| x@),
            list_peers(vs.take(i as int)) == Ok::<Seq<SockAddr>, AnnounceError>(ps@),
        decreases items@.len() - i,
    {
        proof {
            assert(vs.take(i + 1).drop_last() =~= vs.take(i as int));
        }
        match list_peer_exec(&items[i]) {
            Ok(p) => {
                let ghost before = ps@;
                ps.push(p);
                assert(ps@ =~= before.push(p));
            },
            Err(e) => {
                proof {
                    assert(vs.take(i + 1).last() == items@[i as int]@);
                    assert(list_peers(vs.take(i + 1)) == Err::<Seq<SockAddr>, AnnounceError>(e));
                    lemma_list_peers_err(vs, i + 1, vs.len() as int);
                    assert(vs.take(vs.len() as int) =~= vs);
                }
                return Err(e);
            },
        }
        i = i + 1;
    }
    assert(vs.take(items@.len() as int) =~= vs);
    Ok(ps)
}

/// Reads a tracker's bencoded answer.
pub fn parse_response(data: &[u8]) -> (r: Result<AnnounceResponse, AnnounceError>)
    ensures
        match r {
            Ok(resp) => response_spec(bencode_dict_of(data@)) == Ok::<
                (u64, Seq<SockAddr>, Seq<SockAddr>),
                AnnounceError,
            >((resp.interval, resp.peers@, resp.peers6@)) && resp.resolved_addr is None,
            Err(e) => response_spec(bencode_dict_of(data@)) == Err::<
                (u64, Seq<SockAddr>, Seq<SockAddr>),
                AnnounceError,
            >(e),
        },
{
    let es = match parse_dict(data) {
        None => {
            return Err(AnnounceError::Bencode);
        },
        Some(None) => {
            return Err(AnnounceError::NotADict);
        },
        Some(Some(es)) => es,
    };
    let interval: u64 = match find(&es, "interval".as_bytes()) {
        Some(BValue::Int(i)) => if *i >= 0 {
            *i as u64
        } else {
            0
        },
        _ => 0,
    };
    let ghost ev = entries_view(es@);
    let peers: Vec<SockAddr> = match find(&es, "peers".as_bytes()) {
        None => {
            let v: Vec<SockAddr> = Vec::new();
            assert(v@ =~= Seq::<SockAddr>::empty());
            v
        },
        Some(BValue::List(raw)) => {
            let items = match parse_list(raw.as_slice()) {
                Some(Some(items)) => items,
                _ => {
                    return Err(AnnounceError::PeerNotADict);
                },
            };
            let ps = match list_peers_exec(&items) {
                Ok(ps) => ps,
                Err(e) => {
                    return Err(e);
                },
            };
            assert(peers_spec(ev) == Ok::<Seq<SockAddr>, AnnounceError>(ps@));
            ps
        },
        Some(v) => {
            let empty: Vec<u8> = Vec::new();
            let b: &[u8] = match v {
                BValue::Bytes(b) => b.as_slice(),
                _ => empty.as_slice(),
            };
            if b.len() % 6 != 0 {
                return Err(AnnounceError::InvalidPeerLen);
            }
            compact_addrs(b, 6)
        },
    };
    let empty6: Vec<u8> = Vec::new();
    let b6: &[u8] = match get_bytes(&es, "peers6") {
        Some(b) => b.as_slice(),
        None => empty6.as_slice(),
    };
    if b6.len() % 18 != 0 {
        return Err(AnnounceError::InvalidPeerLen);
    }
    let peers6 = compact_addrs(b6, 18);
    assert(peers_spec(ev) == Ok::<Seq<SockAddr>, AnnounceError>(peers@));
    assert(peers6_spec(ev) == Ok::<Seq<SockAddr>, AnnounceError>(peers6@));
    assert(interval_of(ev) == interval);
    Ok(AnnounceResponse { resolved_addr: None, interval, peers, peers6 })
}

/// An error in a peer stops the reading of the list.
proof fn lemma_list_peers_err(items: Seq<BVal>, n: int, m: int)
    requires
        0 <= n <= m <= items.len(),
        list_peers(items.take(n)) is Err,
    ensures
        list_peers(items.take(m)) == list_peers(items.take(n)),
    decreases m - n,
{
    if m > n {
        lemma_list_peers_err(items, n, m - 1);
        assert(items.take(m).drop_last() =~= items.take(m - 1));
    }
}

/// The magic number that opens a UDP connect request.
pub const TRACKER_CONSTANT: u64 = 0x0417_2710_1980;
/// The action of a UDP connect.
pub const ACTION_CONNECT: u32 = 0;
/// The action of a UDP announce.
pub const ACTION_ANNOUNCE: u32 = 1;

/// The eight big-endian bytes of `x`.
pub open spec fn be64(x: u64) -> Seq<u8> {
    be32((x / 0x1_0000_0000) as u32) + be32((x % 0x1_0000_0000) as u32)
}

/// The two big-endian bytes of `x`.
pub open spec fn be16(x: u16) -> Seq<u8> {
    seq![(x / 256) as u8, (x % 256) as u8]
}

/// Appends the four big-endian bytes of `x`.
fn put32(out: &mut Vec<u8>, x: u32)
    ensures
        final(out)@ == old(out)@ + be32(x),
{
    out.push((x / 0x100_0000) as u8);
    out.push((x / 0x1_0000 % 256) as u8);
    out.push((x / 0x100 % 256) as u8);
    out.push((x % 256) as u8);
    assert(out@ =~= old(out)@ + be32(x));
}

/// Appends the eight big-endian bytes of `x`.
fn put64(out: &mut Vec<u8>, x: u64)
    ensures
        final(out)@ == old(out)@ + be64(x),
{
    put32(out, (x / 0x1_0000_0000) as u32);
    put32(out, (x % 0x1_0000_0000) as u32);
    assert(out@ =~= old(out)@ + be64(x));
}

/// A UDP connect request.
pub open spec fn connect_bytes(txn_id: u32) -> Seq<u8> {
    be64(TRACKER_CONSTANT) + be32(ACTION_CONNECT) + be32(txn_id)
}

/// A UDP announce request: nothing transferred, no address, no key, as
/// many peers as the tracker likes.
pub open spec fn announce_bytes(conn_id: u64, txn_id: u32, req: AnnounceRequest) -> Seq<u8> {
    be64(conn_id) + be32(ACTION_ANNOUNCE) + be32(txn_id) + req.info_hash@ + req.peer_id@ + be64(0)
        + be64(0) + be64(0) + be32(event_code(req.event)) + be32(0) + be32(0) + be32(0xffff_ffff)
        + be16(req.port)
}

/// A buffer too small for the packet.
#[derive(Debug, Clone, Copy, PartialEq, Eq, Structural)]
pub struct BufferTooSmall;

/// Copies `b` to the start of `buf`, if it has room; gives the length.
fn copy_packet(b: &Vec<u8>, buf: &mut [u8]) -> (r: Result<usize, BufferTooSmall>)
    ensures
        old(buf)@.len() < b@.len() ==> r == Err::<usize, BufferTooSmall>(BufferTooSmall) && final(buf)@ == old(buf)@,
        old(buf)@.len() >= b@.len() ==> r == Ok::<usize, BufferTooSmall>(b@.len() as usize)
            && final(buf)@ == b@ + old(buf)@.skip(b@.len() as int),
{
    if buf.len() < b.len() {
        return Err(BufferTooSmall);
    }
    let mut i: usize = 0;
    while i < b.len()
        invariant
            i <= b@.len(),
            b@.len() <= buf@.len(),
            buf@.len() == old(buf)@.len(),
            forall|j: int| 0 <= j < i ==> buf@[j] == b@[j],
            forall|j: int| b@.len() <= j < buf@.len() ==> buf@[j] == old(buf)@[j],
        decreases b@.len() - i,
    {
        buf[i] = b[i];
        i = i + 1;
    }
    assert(buf@ =~= b@ + old(buf)@.skip(b@.len() as int));
    Ok(b.len())
}

/// Writes a UDP connect request to the start of `buf`, giving its length
/// (sixteen).
pub fn write_connect(txn_id: u32, buf: &mut [u8]) -> (r: Result<usize, BufferTooSmall>)
    ensures
        old(buf)@.len() < 16 ==> r == Err::<usize, BufferTooSmall>(BufferTooSmall),
        old(buf)@.len() >= 16 ==> r == Ok::<usize, BufferTooSmall>(16) && final(buf)@.take(16) == connect_bytes(txn_id),
{
    let mut v: Vec<u8> = Vec::new();
    put64(&mut v, TRACKER_CONSTANT);
    put32(&mut v, ACTION_CONNECT);
    put32(&mut v, txn_id);
    assert(v@ =~= connect_bytes(txn_id));
    let r = copy_packet(&v, buf);
    proof {
        if old(buf)@.len() >= 16 {
            assert(buf@.take(16) =~= connect_bytes(txn_id));
        }
    }
    r
}

/// Writes a UDP announce request to the start of `buf`, giving its length
/// (ninety-eight).
pub fn write_announce(conn_id: u64, txn_id: u32, req: &AnnounceRequest, buf: &mut [u8]) -> (r: Result<usize, BufferTooSmall>)
    ensures
        old(buf)@.len() < 98 ==> r == Err::<usize, BufferTooSmall>(BufferTooSmall),
        old(buf)@.len() >= 98 ==> r == Ok::<usize, BufferTooSmall>(98) && final(buf)@.take(98) == announce_bytes(conn_id, txn_id, *req),
{
    let mut v: Vec<u8> = Vec::new();
    put64(&mut v, conn_id);
    put32(&mut v, ACTION_ANNOUNCE);
    put32(&mut v, txn_id);
    append_bytes(&mut v, &req.info_hash.0);
    append_bytes(&mut v, &req.peer_id);
    put64(&mut v, 0);
    put64(&mut v, 0);
    put64(&mut v, 0);
    put32(&mut v, req.event.code());
    put32(&mut v, 0);
    put32(&mut v, 0);
    put32(&mut v, 0xffff_ffff);
    v.push((req.port / 256) as u8);
    v.push((req.port % 256) as u8);
    assert(v@ =~= announce_bytes(conn_id, txn_id, *req));
    let r = copy_packet(&v, buf);
    proof {
        if old(buf)@.len() >= 98 {
            assert(buf@.take(98) =~= announce_bytes(conn_id, txn_id, *req));
        }
    }
    r
}

/// Why a UDP tracker's packet was refused.
#[derive(Debug, Clone, Copy, PartialEq, Eq, Structural)]
pub enum UdpError {
    UnexpectedAddress,
    PacketTooSmall,
    IncorrectAction,
    TxnIdMismatch,
    /// Announce peers that are not a whole number of six-byte entries.
    InvalidPeers,
}

/// The checks of a received packet: from the tracker, long enough, of the
/// expected action and transaction.
pub open spec fn response_check(from_tracker: bool, b: Seq<u8>, action: u32, txn_id: u32, min_len: int) -> Option<UdpError> {
    if !from_tracker {
        Some(UdpError::UnexpectedAddress)
    } else if b.len() < min_len {
        Some(UdpError::PacketTooSmall)
    } else if from_be32(b.subrange(0, 4)) != action {
        Some(UdpError::IncorrectAction)
    } else if from_be32(b.subrange(4, 8)) != txn_id {
        Some(UdpError::TxnIdMismatch)
    } else {
        None
    }
}

/// The number in four big-endian bytes of `b` from `off`.
fn get32(b: &[u8], off: usize) -> (r: u32)
    requires
        off + 4 <= b@.len(),
    ensures
        r == from_be32(b@.subrange(off as int, off + 4)),
{
    (b[off] as u32) * 0x100_0000 + (b[off + 1] as u32) * 0x1_0000 + (b[off + 2] as u32) * 0x100
        + (b[off + 3] as u32)
}

/// Checks a received packet (`from_tracker`: whether it came from the
/// tracker's address; `min_len` at least eight).
pub fn read_response(from_tracker: bool, b: &[u8], action: u32, txn_id: u32, min_len: usize) -> (r: Result<(), UdpError>)
    requires
        min_len >= 8,
    ensures
        match r {
            Ok(()) => response_check(from_tracker, b@, action, txn_id, min_len as int) is None,
            Err(e) => response_check(from_tracker, b@, action, txn_id, min_len as int) == Some(e),
        },
{
    if !from_tracker {
        return Err(UdpError::UnexpectedAddress);
    }
    if b.len() < min_len {
        return Err(UdpError::PacketTooSmall);
    }
    if get32(b, 0) != action {
        return Err(UdpError::IncorrectAction);
    }
    if get32(b, 4) != txn_id {
        return Err(UdpError::TxnIdMismatch);
    }
    Ok(())
}

/// The connection id a connect answer carries.
pub fn connect_id(b: &[u8]) -> (r: u64)
    requires
        b@.len() >= 16,
    ensures
        r == from_be32(b@.subrange(8, 12)) as int * 0x1_0000_0000 + from_be32(b@.subrange(12, 16)),
{
    (get32(b, 8) as u64) * 0x1_0000_0000 + get32(b, 12) as u64
}

/// The addresses of compact peers, each once, in the order first met.
pub open spec fn dedup_addrs(s: Seq<SockAddr>) -> Seq<SockAddr>
    decreases s.len(),
{
    if s.len() == 0 {
        s
    } else if dedup_addrs(s.drop_last()).contains(s.last()) {
        dedup_addrs(s.drop_last())
    } else {
        dedup_addrs(s.drop_last()).push(s.last())
    }
}

/// A UDP tracker's peers are a set: each address it names is kept, and
/// kept once.
pub proof fn law_dedup_is_set(s: Seq<SockAddr>)
    ensures
        forall|i: int, j: int| 0 <= i < j < dedup_addrs(s).len() ==> dedup_addrs(s)[i] != dedup_addrs(s)[j],
        forall|a: SockAddr| dedup_addrs(s).contains(a) <==> s.contains(a),
    decreases s.len(),
{
    if s.len() > 0 {
        let t = s.drop_last();
        law_dedup_is_set(t);
        let d = dedup_addrs(t);
        assert forall|a: SockAddr| dedup_addrs(s).contains(a) <==> s.contains(a) by {
            if s.contains(a) && a != s.last() {
                let k = choose|k: int| 0 <= k < s.len() && s[k] == a;
                assert(t[k] == a);
            }
            if t.contains(a) {
                let k = choose|k: int| 0 <= k < t.len() && t[k] == a;
                assert(s[k] == a);
            }
            if !d.contains(s.last()) && d.push(s.last()).contains(a) && a != s.last() {
                let k = choose|k: int| 0 <= k < d.push(s.last()).len() && d.push(s.last())[k] == a;
                assert(d[k] == a);
            }
            if !d.contains(s.last()) && d.contains(a) {
                let k = choose|k: int| 0 <= k < d.len() && d[k] == a;
                assert(d.push(s.last())[k] == a);
            }
            if !d.contains(s.last()) && a == s.last() {
                assert(d.push(s.last())[d.len() as int] == a);
            }
            assert(s[s.len() - 1] == s.last());
        }
        if !d.contains(s.last()) {
            assert forall|i: int, j: int| 0 <= i < j < d.push(s.last()).len() implies d.push(s.last())[i] != d.push(
                s.last(),
            )[j] by {
                if j == d.len() {
                    assert(d.push(s.last())[i] == d[i]);
                }
            }
        }
    }
}

/// Reads a UDP announce answer (checked by [`read_response`]): the
/// interval and the IPv4 peers after the twenty-byte header, each once.
pub fn parse_udp_announce(b: &[u8], tracker: SockAddr) -> (r: Result<AnnounceResponse, UdpError>)
    requires
        b@.len() >= 20,
    ensures
        (b@.len() - 20) % 6 != 0 ==> r == Err::<AnnounceResponse, UdpError>(UdpError::InvalidPeers),
        (b@.len() - 20) % 6 == 0 ==> (r matches Ok(resp) && resp.interval == from_be32(b@.subrange(8, 12))
            && resp.resolved_addr == Some(tracker) && resp.peers6@.len() == 0
            && resp.peers@ == dedup_addrs(compact_list(b@.skip(20), 6))),
{
    let interval = get32(b, 8);
    if (b.len() - 20) % 6 != 0 {
        return Err(UdpError::InvalidPeers);
    }
    let tail = vstd::slice::slice_subrange(b, 20, b.len());
    assert(tail@ =~= b@.skip(20));
    let addrs = compact_addrs(tail, 6);
    let mut uniq: Vec<SockAddr> = Vec::new();
    let mut i: usize = 0;
    while i < addrs.len()
        invariant
            i <= addrs@.len(),
            uniq@ == dedup_addrs(addrs@.take(i as int)),
        decreases addrs@.len() - i,
    {
        proof {
            assert(addrs@.take(i + 1).drop_last() =~= addrs@.take(i as int));
        }
        if !crate::dht::table::contains_addr(&uniq, &addrs[i]) {
            uniq.push(addrs[i]);
        }
        i = i + 1;
    }
    assert(addrs@.take(addrs@.len() as int) =~= addrs@);
    Ok(AnnounceResponse { resolved_addr: Some(tracker), interval: interval as u64, peers: uniq, peers6: Vec::new() })
}

/// The kind of tracker a URL names.
#[derive(Debug, Clone, Copy, PartialEq, Eq, Structural)]
pub enum TrackerKind {
    Http,
    Udp,
}

/// Whether the UTF-8 bytes of `s` start with those of `p`.
fn starts_with(s: &str, p: &str) -> (r: bool)
    ensures
        r == (encode_utf8(s@).len() >= encode_utf8(p@).len() && encode_utf8(s@).take(encode_utf8(p@).len() as int) == encode_utf8(p@)),
{
    let sb = s.as_bytes();
    let pb = p.as_bytes();
    if sb.len() < pb.len() {
        return false;
    }
    let head = vstd::slice::slice_subrange(sb, 0, pb.len());
    assert(head@ =~= sb@.take(pb@.len() as int));
    bytes_eq(head, pb)
}

/// The kind of tracker of an announce URL: HTTP for URLs starting with
/// `http`, UDP for those starting with `udp`; `None` for others.
pub fn tracker_kind(url: &str) -> (r: Option<TrackerKind>)
    ensures
        ({
            let u = encode_utf8(url@);
            let http = u.len() >= 4 && u.take(4) == key("http");
            let udp = u.len() >= 3 && u.take(3) == key("udp");
            &&& http ==> r == Some(TrackerKind::Http)
            &&& !http && udp ==> r == Some(TrackerKind::Udp)
            &&& !http && !udp ==> r is None
        }),
{
    proof {
        reveal_strlit("http");
        reveal_strlit("udp");
        vstd::utf8::is_ascii_chars_encode_utf8("http"@);
        vstd::utf8::is_ascii_chars_encode_utf8("udp"@);
    }
    if starts_with(url, "http") {
        Some(TrackerKind::Http)
    } else if starts_with(url, "udp") {
        Some(TrackerKind::Udp)
    } else {
        None
    }
}

/// Whether the four bytes of `b` at `p` are the blank line `\r\n\r\n` that
/// ends the head of an HTTP answer.
pub open spec fn blank_line_at(b: Seq<u8>, p: int) -> bool {
    0 <= p && p + 4 <= b.len() && b[p] == 13u8 && b[p + 1] == 10u8 && b[p + 2] == 13u8 && b[p + 3] == 10u8
}

/// Where the body of an HTTP answer starts: just after its first blank
/// line; `None` when it has none.
pub fn http_body_start(answer: &[u8]) -> (r: Option<usize>)
    ensures
        r matches Some(s) ==> s >= 4 && blank_line_at(answer@, s - 4)
            && forall|q: int| 0 <= q < s - 4 ==> !blank_line_at(answer@, q),
        r is None ==> forall|q: int| !blank_line_at(answer@, q),
{
    let n = answer.len();
    if n < 4 {
        return None;
    }
    let mut p: usize = 0;
    while p <= n - 4
        invariant
            n == answer@.len(),
            4 <= n,
            p <= n - 3,
            forall|q: int| 0 <= q < p ==> !blank_line_at(answer@, q),
        decreases n - p,
    {
        if answer[p] == 13u8 && answer[p + 1] == 10u8 && answer[p + 2] == 13u8 && answer[p + 3] == 10u8 {
            return Some(p + 4);
        }
        p = p + 1;
    }
    None
}

/// Why a UDP tracker URL was refused.
#[derive(Debug, Clone, Copy, PartialEq, Eq, Structural)]
pub enum ResolveError {
    InvalidUrl,
    NotUdp,
    MissingHost,
    MissingPort,
}

/// The host and port of a UDP tracker URL.
pub open spec fn udp_host_port(u: Option<UrlModel>) -> Result<(Seq<char>, u16), ResolveError> {
    match u {
        None => Err(ResolveError::InvalidUrl),
        Some(u) => if encode_utf8(u.scheme) != key("udp") {
            Err(ResolveError::NotUdp)
        } else {
            match u.host {
                None => Err(ResolveError::MissingHost),
                Some(h) => match u.port {
                    None => Err(ResolveError::MissingPort),
                    Some(p) => Ok((h, p)),
                },
            }
        },
    }
}

/// The host and port a UDP tracker URL names, to be resolved.
pub fn resolve_target(url: &str) -> (r: Result<(String, u16), ResolveError>)
    ensures
        match r {
            Ok((h, p)) => udp_host_port(url_of(url@)) == Ok::<(Seq<char>, u16), ResolveError>((h@, p)),
            Err(e) => udp_host_port(url_of(url@)) == Err::<(Seq<char>, u16), ResolveError>(e),
        },
{
    let u = match parse_url(url) {
        None => {
            return Err(ResolveError::InvalidUrl);
        },
        Some(u) => u,
    };
    if !bytes_eq(u.scheme.as_str().as_bytes(), "udp".as_bytes()) {
        return Err(ResolveError::NotUdp);
    }
    let host = match u.host {
        None => {
            return Err(ResolveError::MissingHost);
        },
        Some(h) => h,
    };
    match u.port {
        None => Err(ResolveError::MissingPort),
        Some(p) => Ok((host, p)),
    }
}

/// A tracker we announce to: its URL, its address once resolved, when we
/// last announced and the seconds to wait from then.
pub struct Tracker {
    pub url: String,
    pub resolved_addr: Option<SockAddr>,
    pub announced_at: Instant,
    pub interval: u64,
}

impl Tracker {
    /// A tracker to announce to at once.
    pub fn new(url: String) -> (r: Self)
        ensures
            r.url@ == url@,
            r.resolved_addr is None,
            r.interval == MIN_TRACKER_INTERVAL,
    {
        Tracker { url, resolved_addr: None, announced_at: now(), interval: MIN_TRACKER_INTERVAL }
    }

    /// Records an announce (its answer, `None` when it failed): the
    /// interval becomes the tracker's, at least the minimum, and the
    /// address the one the answer names; the next announce is due that
    /// interval from now.
    pub fn after_announce(&mut self, resp: Option<&AnnounceResponse>)
        ensures
            final(self).url@ == old(self).url@,
            match resp {
                Some(r) => final(self).interval == (if r.interval > MIN_TRACKER_INTERVAL { r.interval } else { MIN_TRACKER_INTERVAL })
                    && final(self).resolved_addr == r.resolved_addr,
                None => final(self).interval == old(self).interval && final(self).resolved_addr == old(self).resolved_addr,
            },
    {
        match resp {
            Some(r) => {
                self.interval = if r.interval > MIN_TRACKER_INTERVAL {
                    r.interval
                } else {
                    MIN_TRACKER_INTERVAL
                };
                self.resolved_addr = r.resolved_addr;
            },
            None => {},
        }
        self.announced_at = now();
    }
}


/// The decimal digits of `n`, most significant first; `0` for zero.
pub open spec fn decimal(n: nat) -> Seq<u8>
    decreases n,
{
    if n < 10 {
        seq![(48 + n) as u8]
    } else {
        decimal(n / 10) + seq![(48 + n % 10) as u8]
    }
}

/// The decimal digits of a number.
fn decimal_bytes(n: u16) -> (r: Vec<u8>)
    ensures
        r@ == decimal(n as nat),
    decreases n,
{
    if n < 10 {
        let mut v: Vec<u8> = Vec::new();
        v.push(48u8 + n as u8);
        v
    } else {
        let mut v = decimal_bytes(n / 10);
        v.push(48u8 + (n % 10) as u8);
        v
    }
}

/// The URL of an HTTP announce to the tracker at `url`: the info hash, the
/// peer id (both percent-encoded, only letters and digits standing for
/// themselves), the port, nothing up or down loaded, and the compact
/// form of the peer list asked for.
pub open spec fn announce_url_spec(url: Seq<u8>, info_hash: Seq<u8>, peer_id: Seq<u8>, port: u16) -> Seq<u8> {
    url + key("?info_hash=") + url_escape(info_hash) + key("&peer_id=") + url_escape(peer_id) + key("&port=")
        + decimal(port as nat) + key("&uploaded=0&downloaded=0&compact=1")
}

/// The bytes of the URL of an HTTP announce (see [`announce_url_spec`]).
pub fn announce_url(url: &str, info_hash: &InfoHash, peer_id: &PeerId, port: u16) -> (r: Vec<u8>)
    ensures
        r@ == announce_url_spec(encode_utf8(url@), info_hash@, peer_id@, port),
{
    let mut out: Vec<u8> = Vec::new();
    append_bytes(&mut out, url.as_bytes());
    append_bytes(&mut out, "?info_hash=".as_bytes());
    let ih = url_escaped_bytes(&info_hash.0);
    append_bytes(&mut out, ih.as_slice());
    append_bytes(&mut out, "&peer_id=".as_bytes());
    let pid = url_escaped_bytes(peer_id);
    append_bytes(&mut out, pid.as_slice());
    append_bytes(&mut out, "&port=".as_bytes());
    let digits = decimal_bytes(port);
    append_bytes(&mut out, digits.as_slice());
    append_bytes(&mut out, "&uploaded=0&downloaded=0&compact=1".as_bytes());
    out
}

} // verus!
