use crate::bencode::{add_bytes, bstr};
use crate::dht::id::NodeId;
use vstd::prelude::*;

verus! {

/// A UDP endpoint of a DHT node: an IPv4 address (as a big-endian `u32`) or
/// an IPv6 address (as a big-endian `u128`), with a port.
#[derive(Clone, Copy, PartialEq, Eq, Structural, Hash, Debug)]
pub enum SockAddr {
    V4(u32, u16),
    V6(u128, u16),
}

/// The IPv4-mapped IPv6 form (`::ffff:a.b.c.d`) of an IPv4 address.
pub open spec fn spec_v4_mapped(ip: u32) -> u128 {
    (0xffff_0000_0000u128 + ip as u128) as u128
}

/// The IPv6 form of an endpoint: IPv4 addresses become IPv4-mapped.
pub open spec fn spec_to_ipv6(a: SockAddr) -> SockAddr {
    match a {
        SockAddr::V4(ip, port) => SockAddr::V6(spec_v4_mapped(ip), port),
        SockAddr::V6(ip, port) => SockAddr::V6(ip, port),
    }
}

/// The IPv4 form of an endpoint whose IPv6 address stands for an IPv4
/// one (IPv4-compatible `::a.b.c.d` or IPv4-mapped `::ffff:a.b.c.d`);
/// other endpoints as they are.
pub open spec fn spec_unmap_ipv4(a: SockAddr) -> SockAddr {
    match a {
        SockAddr::V6(ip, port) => if ip < 0x1_0000_0000 || (0xffff_0000_0000 <= ip && ip < 0x1_0000_0000_0000) {
            SockAddr::V4((ip % 0x1_0000_0000) as u32, port)
        } else {
            a
        },
        SockAddr::V4(..) => a,
    }
}

/// The IPv4 form of an endpoint whose IPv6 address stands for an IPv4 one.
pub fn unmap_ipv4(addr: SockAddr) -> (r: SockAddr)
    ensures
        r == spec_unmap_ipv4(addr),
{
    match addr {
        SockAddr::V6(ip, port) => if ip < 0x1_0000_0000 || (0xffff_0000_0000 <= ip && ip < 0x1_0000_0000_0000) {
            SockAddr::V4((ip % 0x1_0000_0000) as u32, port)
        } else {
            addr
        },
        SockAddr::V4(..) => addr,
    }
}

/// Unmapping undoes mapping: an IPv4 endpoint taken to its IPv4-mapped
/// IPv6 form and back is itself.
pub proof fn law_unmap_undoes_mapping(a: SockAddr)
    requires
        a is V4,
    ensures
        spec_unmap_ipv4(spec_to_ipv6(a)) == a,
{
}

/// The IPv6 form of an endpoint: IPv4 addresses become IPv4-mapped.
pub fn to_ipv6(addr: SockAddr) -> (r: SockAddr)
    ensures
        r == spec_to_ipv6(addr),
{
    match addr {
        SockAddr::V4(ip, port) => SockAddr::V6(0xffff_0000_0000u128 + ip as u128, port),
        SockAddr::V6(ip, port) => SockAddr::V6(ip, port),
    }
}

/// Status flags of a contact.
#[derive(Clone, Copy, PartialEq, Eq, Structural, Hash, Debug)]
pub struct ContactStatus {
    pub bits: u8,
}

impl ContactStatus {
    pub const QUERIED: u8 = 0b0000_0001;
    pub const INITIAL: u8 = 0b0000_0010;
    pub const NO_ID: u8 = 0b0000_0100;
    pub const SHORT_TIMEOUT: u8 = 0b0000_1000;
    pub const FAILED: u8 = 0b0001_0000;
    pub const IPV6_ADDRESS: u8 = 0b0010_0000;
    pub const ALIVE: u8 = 0b0100_0000;
    pub const DONE: u8 = 0b1000_0000;

    pub fn from_bits(bits: u8) -> (r: Self)
        ensures
            r.bits == bits,
    {
        ContactStatus { bits }
    }

    /// Whether every flag of `flags` is set.
    pub fn contains(&self, flags: u8) -> (r: bool)
        ensures
            r == (self.bits & flags == flags),
    {
        self.bits & flags == flags
    }

    /// Sets the flags of `flags`.
    pub fn insert(&mut self, flags: u8)
        ensures
            final(self).bits == old(self).bits | flags,
    {
        self.bits = self.bits | flags;
    }
}

/// A contact seen by reference: the id lives elsewhere.
#[derive(Debug)]
pub struct ContactRef<'a> {
    pub id: &'a NodeId,
    pub addr: SockAddr,
}

impl ContactRef<'_> {
    pub fn as_owned(&self) -> (r: Contact)
        ensures
            r@ == (Contact { id: *self.id, addr: self.addr, status: ContactStatus { bits: ContactStatus::INITIAL }, timeout_count: None })@,
            r.id@ == self.id@,
            r.addr == self.addr,
            r.timeout_count is None,
    {
        Contact::new(*self.id, self.addr)
    }
}

/// A node of the routing table.
#[derive(Debug, Clone, Copy)]
pub struct Contact {
    pub id: NodeId,
    pub addr: SockAddr,
    pub status: ContactStatus,
    /// `None` until the node has been pinged; then the number of
    /// timeouts since it last answered.
    pub timeout_count: Option<u8>,
}

/// The plain values of a contact.
pub struct ContactView {
    pub id: Seq<u8>,
    pub addr: SockAddr,
    pub status: u8,
    pub timeout_count: Option<u8>,
}

impl View for Contact {
    type V = ContactView;

    open spec fn view(&self) -> ContactView {
        ContactView {
            id: self.id@,
            addr: self.addr,
            status: self.status.bits,
            timeout_count: self.timeout_count,
        }
    }
}

impl Contact {
    pub fn new(id: NodeId, addr: SockAddr) -> (r: Self)
        ensures
            r.id == id,
            r.addr == addr,
            r.timeout_count is None,
            r.status.bits == ContactStatus::INITIAL,
    {
        Self { id, addr, timeout_count: None, status: ContactStatus { bits: ContactStatus::INITIAL } }
    }

    pub fn as_ref(&self) -> (r: ContactRef<'_>)
        ensures
            *r.id == self.id,
            r.addr == self.addr,
    {
        ContactRef { id: &self.id, addr: self.addr }
    }

    pub open spec fn spec_fail_count(&self) -> u8 {
        match self.timeout_count {
            Some(c) => c,
            None => 0,
        }
    }

    pub fn is_pinged(&self) -> (r: bool)
        ensures
            r == self.timeout_count is Some,
    {
        self.timeout_count.is_some()
    }

    pub fn set_pinged(&mut self)
        ensures
            final(self).id == old(self).id,
            final(self).addr == old(self).addr,
            final(self).status == old(self).status,
            final(self).timeout_count == (match old(self).timeout_count {
                Some(c) => Some(c),
                None => Some(0u8),
            }),
    {
        if self.timeout_count.is_none() {
            self.timeout_count = Some(0);
        }
    }

    /// Counts one more timeout of a pinged contact (saturating at 255).
    pub fn timed_out(&mut self)
        ensures
            final(self).id == old(self).id,
            final(self).addr == old(self).addr,
            final(self).status == old(self).status,
            final(self).timeout_count == (match old(self).timeout_count {
                Some(c) => Some(if c == 255 { 255u8 } else { (c + 1) as u8 }),
                None => None,
            }),
    {
        match self.timeout_count {
            Some(c) => {
                self.timeout_count = Some(if c == 255 { 255 } else { c + 1 });
            },
            None => {},
        }
    }

    pub fn fail_count(&self) -> (r: u8)
        ensures
            r == self.spec_fail_count(),
    {
        match self.timeout_count {
            Some(c) => c,
            None => 0,
        }
    }

    pub fn failed(&self) -> (r: bool)
        ensures
            r == (self.spec_fail_count() > 0),
    {
        self.fail_count() > 0
    }

    /// Resets the timeout count of a pinged contact.
    pub fn clear_timeout(&mut self)
        ensures
            final(self).id == old(self).id,
            final(self).addr == old(self).addr,
            final(self).status == old(self).status,
            final(self).timeout_count == (match old(self).timeout_count {
                Some(c) => Some(0u8),
                None => None,
            }),
    {
        if self.timeout_count.is_some() {
            self.timeout_count = Some(0);
        }
    }

    /// Pinged and never timed out since.
    pub fn is_confirmed(&self) -> (r: bool)
        ensures
            r == (self.timeout_count == Some(0u8)),
    {
        match self.timeout_count {
            Some(c) => c == 0,
            None => false,
        }
    }
}

/// A big-endian number from bytes.
pub open spec fn be_num(b: Seq<u8>) -> nat
    decreases b.len(),
{
    if b.len() == 0 {
        0
    } else {
        be_num(b.drop_last()) * 256 + b.last() as nat
    }
}

/// The bytes of an IPv4 endpoint, as compact node info carries it:
/// the address, then the port, both big-endian.
pub open spec fn endpoint_bytes(a: SockAddr) -> Seq<u8> {
    match a {
        SockAddr::V4(ip, port) => seq![
            (ip / 0x100_0000) as u8,
            (ip / 0x1_0000 % 256) as u8,
            (ip / 0x100 % 256) as u8,
            (ip % 256) as u8,
            (port / 256) as u8,
            (port % 256) as u8,
        ],
        SockAddr::V6(ip, port) => Seq::new(16, |i: int| ((ip >> ((8 * (15 - i)) as u32)) & 0xff) as u8)
            + seq![(port / 256) as u8, (port % 256) as u8],
    }
}

impl Contact {
    /// Appends the compact node info of this contact as a bencoded byte
    /// string: the id, the address and the port.
    pub fn encode(&self, buf: &mut Vec<u8>)
        ensures
            final(buf)@ == old(buf)@ + bstr(self.id@ + endpoint_bytes(self.addr)),
    {
        let mut bytes: Vec<u8> = Vec::new();
        let mut i: usize = 0;
        while i < 20
            invariant
                i <= 20,
                bytes@ == self.id@.take(i as int),
            decreases 20 - i,
        {
            bytes.push(self.id.0[i]);
            i = i + 1;
            assert(bytes@ =~= self.id@.take(i as int));
        }
        assert(self.id@.take(20) =~= self.id@);
        let ghost id_part = bytes@;
        let port = match self.addr {
            SockAddr::V4(ip, port) => {
                bytes.push((ip / 0x100_0000) as u8);
                bytes.push((ip / 0x1_0000 % 256) as u8);
                bytes.push((ip / 0x100 % 256) as u8);
                bytes.push((ip % 256) as u8);
                port
            },
            SockAddr::V6(ip, port) => {
                let mut k: usize = 0;
                while k < 16
                    invariant
                        k <= 16,
                        bytes@ == id_part + Seq::new(k as nat, |j: int| ((ip >> ((8 * (15 - j)) as u32)) & 0xff) as u8),
                    decreases 16 - k,
                {
                    let shift = (8 * (15 - k)) as u32;
                    let b = ((ip >> shift) & 0xff) as u8;
                    bytes.push(b);
                    k = k + 1;
                    assert(bytes@ =~= id_part + Seq::new(k as nat, |j: int| ((ip >> ((8 * (15 - j)) as u32)) & 0xff) as u8));
                }
                port
            },
        };
        bytes.push((port / 256) as u8);
        bytes.push((port % 256) as u8);
        assert(bytes@ =~= self.id@ + endpoint_bytes(self.addr));
        add_bytes(buf, bytes.as_slice());
    }
}

/// A list of IPv4 nodes in compact form: twenty bytes of id, four of
/// address and two of port each.
pub struct CompactNodes<'a> {
    buf: &'a [u8],
    pos: usize,
}

/// A compact node list whose length is not a whole number of entries.
#[derive(Debug, Clone, Copy, PartialEq, Eq, Structural)]
pub struct InvalidLength {
    pub len: usize,
}

/// The node at entry `i` of an IPv4 compact list, its address made
/// IPv4-mapped.
pub open spec fn compact_v4_at(buf: Seq<u8>, i: int) -> (Seq<u8>, SockAddr) {
    let b = buf.subrange(26 * i, 26 * i + 26);
    (
        b.subrange(0, 20),
        SockAddr::V6(
            spec_v4_mapped(be_num(b.subrange(20, 24)) as u32),
            be_num(b.subrange(24, 26)) as u16,
        ),
    )
}

/// The node at entry `i` of an IPv6 compact list.
pub open spec fn compact_v6_at(buf: Seq<u8>, i: int) -> (Seq<u8>, SockAddr) {
    let b = buf.subrange(38 * i, 38 * i + 38);
    (b.subrange(0, 20), SockAddr::V6(be_num(b.subrange(20, 36)) as u128, be_num(b.subrange(36, 38)) as u16))
}

/// `256` to the power `n`.
pub open spec fn pow256(n: nat) -> nat
    decreases n,
{
    if n == 0 {
        1
    } else {
        256 * pow256((n - 1) as nat)
    }
}

/// A big-endian number of `n` bytes is below `256` to the power `n`.
proof fn lemma_be_num_bound(b: Seq<u8>)
    ensures
        be_num(b) < pow256(b.len()),
    decreases b.len(),
{
    if b.len() > 0 {
        lemma_be_num_bound(b.drop_last());
        let x = be_num(b.drop_last());
        let p = pow256(b.drop_last().len());
        let l = b.last() as nat;
        assert(x * 256 + l < 256 * p) by (nonlinear_arith)
            requires
                x < p,
                l < 256,
        ;
    }
}

proof fn lemma_pow256_16()
    ensures
        pow256(16) == 0x1_0000_0000_0000_0000_0000_0000_0000_0000,
{
    reveal_with_fuel(pow256, 17);
}

/// The big-endian number held by `n` bytes of `b` from `off`.
pub fn be_bytes(b: &[u8], off: usize, n: usize) -> (r: u128)
    requires
        n <= 16,
        off + n <= b@.len(),
    ensures
        r == be_num(b@.subrange(off as int, off + n)),
{
    let mut acc: u128 = 0;
    let mut k: usize = 0;
    let len = b.len();
    proof {
        lemma_pow256_16();
    }
    while k < n
        invariant
            len == b@.len(),
            k <= n,
            n <= 16,
            off + n <= b@.len(),
            acc == be_num(b@.subrange(off as int, off + k)),
            pow256(16) == 0x1_0000_0000_0000_0000_0000_0000_0000_0000,
        decreases n - k,
    {
        let ghost prev = b@.subrange(off as int, off + k);
        let ghost next = b@.subrange(off as int, off + k + 1);
        proof {
            assert(next.drop_last() =~= prev);
            lemma_be_num_bound(next);
            lemma_pow_mono(next.len(), 16);
        }
        acc = acc * 256 + b[off + k] as u128;
        k = k + 1;
    }
    acc
}

/// Powers of `256` grow with the exponent.
proof fn lemma_pow_mono(a: nat, b: nat)
    requires
        a <= b,
    ensures
        pow256(a) <= pow256(b),
    decreases b,
{
    if a < b {
        lemma_pow_mono(a, (b - 1) as nat);
    }
}

impl<'a> CompactNodes<'a> {
    /// The entries not yet read.
    pub closed spec fn rest(&self) -> Seq<u8> {
        self.buf@.skip(self.pos as int)
    }

    /// The iteration invariant: it stands on a whole entry.
    pub closed spec fn wf(&self) -> bool {
        &&& self.pos <= self.buf@.len()
        &&& self.rest().len() % 26 == 0
    }

    /// A list over `buf`, whose length must be a multiple of 26.
    pub fn new(buf: &'a [u8]) -> (r: Result<Self, InvalidLength>)
        ensures
            r is Ok <==> buf@.len() % 26 == 0,
            r matches Ok(c) ==> c.wf() && c.rest() == buf@,
            r matches Err(e) ==> e.len == buf@.len(),
    {
        if buf.len() % 26 != 0 {
            return Err(InvalidLength { len: buf.len() });
        }
        let r = Self { buf, pos: 0 };
        assert(r.rest() =~= buf@);
        Ok(r)
    }

    /// The next node, its address made IPv4-mapped; `None` at the end.
    pub fn next(&mut self) -> (r: Option<Contact>)
        requires
            old(self).wf(),
        ensures
            final(self).wf(),
            old(self).rest().len() == 0 ==> r is None && final(self).rest() == old(self).rest(),
            old(self).rest().len() > 0 ==> (r matches Some(c) && (c.id@, c.addr) == compact_v4_at(old(self).rest(), 0)
                && c.timeout_count is None && final(self).rest() == old(self).rest().skip(26)),
    {
        if self.buf.len() - self.pos < 26 {
            return None;
        }
        let p = self.pos;
        let id = NodeId::from_slice_20(slice_range(self.buf, p, 20));
        let ip = be_bytes(self.buf, p + 20, 4) as u32;
        let port = be_bytes(self.buf, p + 24, 2) as u16;
        self.pos = p + 26;
        proof {
            let rest = self.buf@.skip(p as int);
            let b = rest.subrange(0, 26);
            assert(b.subrange(0, 20) =~= self.buf@.subrange(p as int, p + 20));
            assert(b.subrange(20, 24) =~= self.buf@.subrange(p + 20, p + 24));
            assert(b.subrange(24, 26) =~= self.buf@.subrange(p + 24, p + 26));
            lemma_be_num_bound(b.subrange(20, 24));
            lemma_be_num_bound(b.subrange(24, 26));
            reveal_with_fuel(pow256, 5);
            assert(self.rest() =~= rest.skip(26));
        }
        Some(Contact::new(id, to_ipv6(SockAddr::V4(ip, port))))
    }
}

/// A list of IPv6 nodes in compact form: twenty bytes of id, sixteen of
/// address and two of port each.
pub struct CompactNodesV6<'a> {
    buf: &'a [u8],
    pos: usize,
}

impl<'a> CompactNodesV6<'a> {
    /// The entries not yet read.
    pub closed spec fn rest(&self) -> Seq<u8> {
        self.buf@.skip(self.pos as int)
    }

    /// The iteration invariant: it stands on a whole entry.
    pub closed spec fn wf(&self) -> bool {
        &&& self.pos <= self.buf@.len()
        &&& self.rest().len() % 38 == 0
    }

    /// A list over `buf`, whose length must be a multiple of 38.
    pub fn new(buf: &'a [u8]) -> (r: Result<Self, InvalidLength>)
        ensures
            r is Ok <==> buf@.len() % 38 == 0,
            r matches Ok(c) ==> c.wf() && c.rest() == buf@,
            r matches Err(e) ==> e.len == buf@.len(),
    {
        if buf.len() % 38 != 0 {
            return Err(InvalidLength { len: buf.len() });
        }
        let r = Self { buf, pos: 0 };
        assert(r.rest() =~= buf@);
        Ok(r)
    }

    /// The next node; `None` at the end.
    pub fn next(&mut self) -> (r: Option<Contact>)
        requires
            old(self).wf(),
        ensures
            final(self).wf(),
            old(self).rest().len() == 0 ==> r is None && final(self).rest() == old(self).rest(),
            old(self).rest().len() > 0 ==> (r matches Some(c) && (c.id@, c.addr) == compact_v6_at(old(self).rest(), 0)
                && c.timeout_count is None && final(self).rest() == old(self).rest().skip(38)),
    {
        if self.buf.len() - self.pos < 38 {
            return None;
        }
        let p = self.pos;
        let id = NodeId::from_slice_20(slice_range(self.buf, p, 20));
        let ip = be_bytes(self.buf, p + 20, 16);
        let port = be_bytes(self.buf, p + 36, 2) as u16;
        self.pos = p + 38;
        proof {
            let rest = self.buf@.skip(p as int);
            let b = rest.subrange(0, 38);
            assert(b.subrange(0, 20) =~= self.buf@.subrange(p as int, p + 20));
            assert(b.subrange(20, 36) =~= self.buf@.subrange(p + 20, p + 36));
            assert(b.subrange(36, 38) =~= self.buf@.subrange(p + 36, p + 38));
            lemma_be_num_bound(b.subrange(36, 38));
            reveal_with_fuel(pow256, 3);
            assert(self.rest() =~= rest.skip(38));
        }
        Some(Contact::new(id, SockAddr::V6(ip, port)))
    }
}

/// The `n` bytes of `b` from `off`.
pub fn slice_range(b: &[u8], off: usize, n: usize) -> (r: &[u8])
    requires
        off + n <= b@.len(),
    ensures
        r@ == b@.subrange(off as int, off + n),
{
    let len = b.len();
    vstd::slice::slice_subrange(b, off, off + n)
}

} // verus!
