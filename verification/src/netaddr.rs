//! Textual IP and socket addresses: `a.b.c.d`, IPv6 with `::` and an
//! embedded IPv4 tail, `a.b.c.d:port` and `[v6%scope]:port`.
//!
//! The grammar is the one the standard library reads: IPv4 octets of at most
//! three decimal digits without a leading zero, IPv6 groups of at most four
//! hex digits, a port of any number of decimal digits that fits in 16 bits.
use crate::dht::contact::SockAddr;
use vstd::prelude::*;

verus! {

/// An IP address without a port.
#[derive(Clone, Copy, Debug, PartialEq, Eq, Structural)]
pub enum IpValue {
    V4(u32),
    V6(u128),
}

impl IpValue {
    /// The socket address of this IP address and `port`.
    pub fn with_port(self, port: u16) -> (r: SockAddr)
        ensures
            r == ip_with_port(self, port),
    {
        match self {
            IpValue::V4(ip) => SockAddr::V4(ip, port),
            IpValue::V6(ip) => SockAddr::V6(ip, port),
        }
    }
}

pub open spec fn ip_with_port(ip: IpValue, port: u16) -> SockAddr {
    match ip {
        IpValue::V4(a) => SockAddr::V4(a, port),
        IpValue::V6(a) => SockAddr::V6(a, port),
    }
}

/// The value of `c` as a digit in base `radix` (10 or 16).
pub open spec fn digit_value(c: u8, radix: nat) -> Option<nat> {
    if 48 <= c <= 57 && c - 48 < radix {
        Some((c - 48) as nat)
    } else if radix == 16 && 97 <= c <= 102 {
        Some((c - 87) as nat)
    } else if radix == 16 && 65 <= c <= 70 {
        Some((c - 55) as nat)
    } else {
        None
    }
}

/// How many digits follow position `i`, counting at most `cap`.
pub open spec fn run_len(b: Seq<u8>, i: int, radix: nat, cap: nat) -> nat
    decreases cap,
{
    if cap == 0 || i < 0 || i >= b.len() || digit_value(b[i], radix) is None {
        0
    } else {
        1 + run_len(b, i + 1, radix, (cap - 1) as nat)
    }
}

/// The number that the `n` digits from position `i` write.
pub open spec fn digits_value(b: Seq<u8>, i: int, n: nat, radix: nat) -> nat
    decreases n,
{
    if n == 0 {
        0
    } else {
        digits_value(b, i, (n - 1) as nat, radix) * radix + match digit_value(b[i + n - 1], radix) {
            Some(d) => d,
            None => 0,
        }
    }
}

/// A number read from position `i`: all the digits there (at most `cap`),
/// at least one, no leading zero unless allowed, at most `limit`; with the
/// position after it.
pub open spec fn number_at(
    b: Seq<u8>,
    i: int,
    radix: nat,
    cap: nat,
    allow_zero_prefix: bool,
    limit: nat,
) -> Option<(nat, int)> {
    let n = run_len(b, i, radix, cap);
    if n == 0 {
        None
    } else if !allow_zero_prefix && b[i] == 48 && n > 1 {
        None
    } else if digits_value(b, i, n, radix) > limit {
        None
    } else {
        Some((digits_value(b, i, n, radix), i + n))
    }
}

pub open spec fn octet_at(b: Seq<u8>, i: int) -> Option<(nat, int)> {
    number_at(b, i, 10, 3, false, 255)
}

pub open spec fn dot_octet_at(b: Seq<u8>, i: int) -> Option<(nat, int)> {
    if 0 <= i < b.len() && b[i] == 46 {
        octet_at(b, i + 1)
    } else {
        None
    }
}

/// An IPv4 address read from position `i`, as a 32-bit number.
pub open spec fn ipv4_at(b: Seq<u8>, i: int) -> Option<(nat, int)> {
    match octet_at(b, i) {
        None => None,
        Some((o0, j0)) => match dot_octet_at(b, j0) {
            None => None,
            Some((o1, j1)) => match dot_octet_at(b, j1) {
                None => None,
                Some((o2, j2)) => match dot_octet_at(b, j2) {
                    None => None,
                    Some((o3, j3)) => Some((((o0 * 256 + o1) * 256 + o2) * 256 + o3, j3)),
                },
            },
        },
    }
}

/// Where the `k`-th group of an IPv6 address starts: after a colon but
/// for the first one.
pub open spec fn sep_at(b: Seq<u8>, i: int, k: nat) -> Option<int> {
    if k == 0 {
        Some(i)
    } else if 0 <= i < b.len() && b[i] == 58 {
        Some(i + 1)
    } else {
        None
    }
}

pub open spec fn hex_group_at(b: Seq<u8>, p: Option<int>) -> Option<(nat, int)> {
    match p {
        Some(p) => number_at(b, p, 16, 4, true, 65535),
        None => None,
    }
}

pub open spec fn v4_tail_at(b: Seq<u8>, p: Option<int>, k: nat, limit: nat) -> Option<(nat, int)> {
    if k + 1 < limit {
        match p {
            Some(p) => ipv4_at(b, p),
            None => None,
        }
    } else {
        None
    }
}

/// Colon-separated groups read from position `i`, the `k`-th onwards and
/// fewer than `limit` in all, an embedded IPv4 address counting for two:
/// the groups, the position after them, and whether an IPv4 tail was read.
pub open spec fn groups_at(b: Seq<u8>, i: int, k: nat, limit: nat) -> (Seq<u16>, int, bool)
    decreases limit - k,
{
    if k >= limit {
        (Seq::empty(), i, false)
    } else {
        let p = sep_at(b, i, k);
        match v4_tail_at(b, p, k, limit) {
            Some((ip, q)) => (seq![(ip / 65536) as u16, (ip % 65536) as u16], q, true),
            None => match hex_group_at(b, p) {
                Some((g, q)) => {
                    let rest = groups_at(b, q, k + 1, limit);
                    (seq![g as u16].add(rest.0), rest.1, rest.2)
                },
                None => (Seq::empty(), i, false),
            },
        }
    }
}

/// The 128-bit number of IPv6 groups, the first the most significant.
pub open spec fn pack_groups(s: Seq<u16>) -> nat
    decreases s.len(),
{
    if s.len() == 0 {
        0
    } else {
        pack_groups(s.drop_last()) * 65536 + s.last() as nat
    }
}

/// An IPv6 address read from position `i`: eight groups, or the groups
/// before and after one `::` that stands for at least one zero group.
pub open spec fn ipv6_at(b: Seq<u8>, i: int) -> Option<(nat, int)> {
    let head = groups_at(b, i, 0, 8);
    let hp = head.1;
    if head.0.len() == 8 {
        Some((pack_groups(head.0), hp))
    } else if head.2 {
        None
    } else if 0 <= hp && hp + 1 < b.len() && b[hp] == 58 && b[hp + 1] == 58 {
        let tail = groups_at(b, hp + 2, 0, (7 - head.0.len()) as nat);
        let zeros = Seq::new((8 - head.0.len() - tail.0.len()) as nat, |j: int| 0u16);
        Some((pack_groups(head.0 + zeros + tail.0), tail.1))
    } else {
        None
    }
}

/// A port read from position `i`: a colon and a 16-bit decimal number.
pub open spec fn port_at(b: Seq<u8>, i: int) -> Option<(nat, int)> {
    if 0 <= i < b.len() && b[i] == 58 {
        number_at(b, i + 1, 10, b.len(), true, 65535)
    } else {
        None
    }
}

/// The position after an optional `%scope` suffix (a 32-bit number).
pub open spec fn scope_end(b: Seq<u8>, i: int) -> int {
    if 0 <= i < b.len() && b[i] == 37 {
        match number_at(b, i + 1, 10, b.len(), true, 0xffff_ffff) {
            Some((_, j)) => j,
            None => i,
        }
    } else {
        i
    }
}

pub open spec fn v6_sock_of(b: Seq<u8>) -> Option<SockAddr> {
    if b.len() > 0 && b[0] == 91 {
        match ipv6_at(b, 1) {
            Some((ip, j)) => {
                let s = scope_end(b, j);
                if 0 <= s < b.len() && b[s] == 93 {
                    match port_at(b, s + 1) {
                        Some((p, k)) => if k == b.len() {
                            Some(SockAddr::V6(ip as u128, p as u16))
                        } else {
                            None
                        },
                        None => None,
                    }
                } else {
                    None
                }
            },
            None => None,
        }
    } else {
        None
    }
}

/// The socket address that the whole of `b` writes, if any. A scope id is
/// read and not kept.
pub open spec fn sock_addr_of(b: Seq<u8>) -> Option<SockAddr> {
    match ipv4_at(b, 0) {
        Some((ip, j)) => match port_at(b, j) {
            Some((p, k)) => if k == b.len() {
                Some(SockAddr::V4(ip as u32, p as u16))
            } else {
                None
            },
            None => v6_sock_of(b),
        },
        None => v6_sock_of(b),
    }
}

/// The IP address that the whole of `b` writes, if any.
pub open spec fn ip_addr_of(b: Seq<u8>) -> Option<IpValue> {
    match ipv4_at(b, 0) {
        Some((ip, j)) => if j == b.len() {
            Some(IpValue::V4(ip as u32))
        } else {
            None
        },
        None => match ipv6_at(b, 0) {
            Some((ip, j)) => if j == b.len() {
                Some(IpValue::V6(ip as u128))
            } else {
                None
            },
            None => None,
        },
    }
}

pub open spec fn ascii_code(s: Seq<char>) -> Seq<u8> {
    s.map_values(|c: char| c as u8)
}

/// The socket address a text writes; no text with a character outside
/// ASCII writes one.
pub open spec fn sock_addr_text(s: Seq<char>) -> Option<SockAddr> {
    if vstd::utf8::is_ascii_chars(s) {
        sock_addr_of(ascii_code(s))
    } else {
        None
    }
}

/// The IP address a text writes.
pub open spec fn ip_addr_text(s: Seq<char>) -> Option<IpValue> {
    if vstd::utf8::is_ascii_chars(s) {
        ip_addr_of(ascii_code(s))
    } else {
        None
    }
}

proof fn lemma_run_len_bound(b: Seq<u8>, i: int, radix: nat, cap: nat)
    ensures
        run_len(b, i, radix, cap) <= cap,
        run_len(b, i, radix, cap) > 0 ==> 0 <= i && i + run_len(b, i, radix, cap) <= b.len(),
    decreases cap,
{
    if cap > 0 && 0 <= i < b.len() && digit_value(b[i], radix) is Some {
        lemma_run_len_bound(b, i + 1, radix, (cap - 1) as nat);
    }
}

proof fn lemma_digits_mono(b: Seq<u8>, i: int, m: nat, n: nat, radix: nat)
    requires
        m <= n,
        radix >= 1,
    ensures
        digits_value(b, i, m, radix) <= digits_value(b, i, n, radix),
    decreases n,
{
    if m < n {
        lemma_digits_mono(b, i, m, (n - 1) as nat, radix);
        let prev = digits_value(b, i, (n - 1) as nat, radix);
        assert(prev <= prev * radix) by (nonlinear_arith)
            requires
                radix >= 1,
        ;
    }
}

proof fn lemma_number_end(b: Seq<u8>, i: int, radix: nat, cap: nat, z: bool, limit: nat)
    ensures
        number_at(b, i, radix, cap, z, limit) matches Some((v, j)) ==> i < j <= b.len() && j - i <= cap
            && v <= limit && 0 <= i,
{
    lemma_run_len_bound(b, i, radix, cap);
}

proof fn lemma_ipv4_end(b: Seq<u8>, i: int)
    ensures
        ipv4_at(b, i) matches Some((v, j)) ==> 0 <= i < j <= b.len() && v < 0x1_0000_0000,
{
    lemma_number_end(b, i, 10, 3, false, 255);
    if let Some((o0, j0)) = octet_at(b, i) {
        lemma_number_end(b, j0 + 1, 10, 3, false, 255);
        if let Some((o1, j1)) = dot_octet_at(b, j0) {
            lemma_number_end(b, j1 + 1, 10, 3, false, 255);
            if let Some((o2, j2)) = dot_octet_at(b, j1) {
                lemma_number_end(b, j2 + 1, 10, 3, false, 255);
            }
        }
    }
}

proof fn lemma_groups_end(b: Seq<u8>, i: int, k: nat, limit: nat)
    requires
        0 <= i <= b.len(),
    ensures
        groups_at(b, i, k, limit).0.len() <= if k <= limit { limit - k } else { 0 },
        i <= groups_at(b, i, k, limit).1 <= b.len(),
    decreases limit - k,
{
    if k < limit {
        let p = sep_at(b, i, k);
        if let Some(pp) = p {
            lemma_ipv4_end(b, pp);
            lemma_number_end(b, pp, 16, 4, true, 65535);
        }
        match v4_tail_at(b, p, k, limit) {
            Some(_) => {},
            None => match hex_group_at(b, p) {
                Some((g, q)) => {
                    lemma_groups_end(b, q, k + 1, limit);
                },
                None => {},
            },
        }
    }
}

proof fn lemma_pack_bound(s: Seq<u16>)
    ensures
        pack_groups(s) < pow65536(s.len()),
    decreases s.len(),
{
    if s.len() > 0 {
        lemma_pack_bound(s.drop_last());
        let p = pack_groups(s.drop_last());
        let q = pow65536(s.drop_last().len());
        assert(p * 65536 + s.last() < q * 65536) by (nonlinear_arith)
            requires
                p < q,
                s.last() < 65536,
        ;
    }
}

pub open spec fn pow65536(n: nat) -> nat
    decreases n,
{
    if n == 0 {
        1
    } else {
        pow65536((n - 1) as nat) * 65536
    }
}

proof fn lemma_ipv6_end(b: Seq<u8>, i: int)
    requires
        0 <= i <= b.len(),
    ensures
        ipv6_at(b, i) matches Some((v, j)) ==> i <= j <= b.len() && v < 0x1_0000_0000_0000_0000_0000_0000_0000_0000,
{
    lemma_groups_end(b, i, 0, 8);
    let head = groups_at(b, i, 0, 8);
    assert(pow65536(8) == 0x1_0000_0000_0000_0000_0000_0000_0000_0000) by {
        reveal_with_fuel(pow65536, 9);
    }
    if head.0.len() == 8 {
        lemma_pack_bound(head.0);
    } else if !head.2 && 0 <= head.1 && head.1 + 1 < b.len() && b[head.1] == 58 && b[head.1 + 1] == 58 {
        lemma_groups_end(b, head.1 + 2, 0, (7 - head.0.len()) as nat);
        let tail = groups_at(b, head.1 + 2, 0, (7 - head.0.len()) as nat);
        let zeros = Seq::new((8 - head.0.len() - tail.0.len()) as nat, |j: int| 0u16);
        lemma_pack_bound(head.0 + zeros + tail.0);
    }
}

/// The value of `c` as a digit in base `radix`, or `radix` itself when it
/// is none.
fn digit_exec(c: u8, radix: u8) -> (r: u8)
    requires
        radix == 10 || radix == 16,
    ensures
        r <= radix,
        r < radix <==> digit_value(c, radix as nat) is Some,
        r < radix ==> digit_value(c, radix as nat) == Some(r as nat),
{
    if 48 <= c && c <= 57 {
        c - 48
    } else if radix == 16 && 97 <= c && c <= 102 {
        c - 87
    } else if radix == 16 && 65 <= c && c <= 70 {
        c - 55
    } else {
        radix
    }
}

fn read_number(
    b: &[u8],
    i: usize,
    radix: u8,
    cap: usize,
    allow_zero_prefix: bool,
    limit: u32,
) -> (r: Option<(u32, usize)>)
    requires
        radix == 10 || radix == 16,
        i <= b@.len(),
    ensures
        match r {
            Some((v, j)) => number_at(b@, i as int, radix as nat, cap as nat, allow_zero_prefix, limit as nat)
                == Some((v as nat, j as int)),
            None => number_at(b@, i as int, radix as nat, cap as nat, allow_zero_prefix, limit as nat) is None,
        },
{
    let len = b.len();
    let mut pos: usize = i;
    let mut k: usize = 0;
    let mut v: u32 = 0;
    let ghost total = run_len(b@, i as int, radix as nat, cap as nat);
    while k < cap && pos < len && digit_exec(b[pos], radix) < radix
        invariant
            radix == 10 || radix == 16,
            len == b@.len(),
            i <= pos <= len,
            pos == i + k,
            k <= cap,
            v as nat == digits_value(b@, i as int, k as nat, radix as nat),
            v <= limit,
            total == run_len(b@, i as int, radix as nat, cap as nat),
            total == k + run_len(b@, pos as int, radix as nat, (cap - k) as nat),
        decreases cap - k,
    {
        let d = digit_exec(b[pos], radix);
        assert((v as u64) * (radix as u64) <= 0xffff_ffff * 16) by (nonlinear_arith)
            requires
                v <= 0xffff_ffff,
                radix <= 16,
        ;
        let nv: u64 = (v as u64) * (radix as u64) + (d as u64);
        assert(nv == digits_value(b@, i as int, (k + 1) as nat, radix as nat));
        if nv > limit as u64 {
            proof {
                lemma_digits_mono(b@, i as int, (k + 1) as nat, total, radix as nat);
            }
            return None;
        }
        v = nv as u32;
        k = k + 1;
        pos = pos + 1;
    }
    assert(run_len(b@, pos as int, radix as nat, (cap - k) as nat) == 0);
    if k == 0 {
        return None;
    }
    if !allow_zero_prefix && b[i] == 48 && k > 1 {
        return None;
    }
    Some((v, pos))
}

fn read_octet(b: &[u8], i: usize) -> (r: Option<(u32, usize)>)
    requires
        i <= b@.len(),
    ensures
        match r {
            Some((v, j)) => octet_at(b@, i as int) == Some((v as nat, j as int)),
            None => octet_at(b@, i as int) is None,
        },
{
    read_number(b, i, 10, 3, false, 255)
}

fn read_dot_octet(b: &[u8], i: usize) -> (r: Option<(u32, usize)>)
    requires
        i <= b@.len(),
    ensures
        match r {
            Some((v, j)) => dot_octet_at(b@, i as int) == Some((v as nat, j as int)),
            None => dot_octet_at(b@, i as int) is None,
        },
{
    if i < b.len() && b[i] == 46 {
        read_octet(b, i + 1)
    } else {
        None
    }
}

fn read_ipv4(b: &[u8], i: usize) -> (r: Option<(u32, usize)>)
    requires
        i <= b@.len(),
    ensures
        match r {
            Some((v, j)) => ipv4_at(b@, i as int) == Some((v as nat, j as int)),
            None => ipv4_at(b@, i as int) is None,
        },
{
    proof {
        lemma_number_end(b@, i as int, 10, 3, false, 255);
    }
    let (o0, j0) = match read_octet(b, i) {
        Some(x) => x,
        None => return None,
    };
    proof {
        lemma_number_end(b@, j0 + 1, 10, 3, false, 255);
    }
    let (o1, j1) = match read_dot_octet(b, j0) {
        Some(x) => x,
        None => return None,
    };
    proof {
        lemma_number_end(b@, j1 + 1, 10, 3, false, 255);
    }
    let (o2, j2) = match read_dot_octet(b, j1) {
        Some(x) => x,
        None => return None,
    };
    proof {
        lemma_number_end(b@, j2 + 1, 10, 3, false, 255);
    }
    let (o3, j3) = match read_dot_octet(b, j2) {
        Some(x) => x,
        None => return None,
    };
    Some((((o0 * 256 + o1) * 256 + o2) * 256 + o3, j3))
}

fn read_sep(b: &[u8], i: usize, k: usize) -> (r: Option<usize>)
    requires
        i <= b@.len(),
    ensures
        match r {
            Some(p) => sep_at(b@, i as int, k as nat) == Some(p as int) && p <= b@.len(),
            None => sep_at(b@, i as int, k as nat) is None,
        },
{
    if k == 0 {
        Some(i)
    } else if i < b.len() && b[i] == 58 {
        Some(i + 1)
    } else {
        None
    }
}

fn read_groups(b: &[u8], i: usize, k: usize, limit: usize) -> (r: (Vec<u16>, usize, bool))
    requires
        i <= b@.len(),
        limit <= 8,
    ensures
        (r.0@, r.1 as int, r.2) == groups_at(b@, i as int, k as nat, limit as nat),
    decreases limit - k,
{
    if k >= limit {
        return (Vec::new(), i, false);
    }
    let p = read_sep(b, i, k);
    if k + 1 < limit {
        if let Some(pp) = p {
            proof {
                lemma_ipv4_end(b@, pp as int);
            }
            if let Some((ip, q)) = read_ipv4(b, pp) {
                let hi = (ip / 65536) as u16;
                let lo = (ip % 65536) as u16;
                let v = vec![hi, lo];
                assert(v@ == seq![(ip / 65536) as u16, (ip % 65536) as u16]);
                return (v, q, true);
            }
        }
    }
    assert(v4_tail_at(b@, sep_at(b@, i as int, k as nat), k as nat, limit as nat) is None);
    match p {
        Some(pp) => {
            proof {
                lemma_number_end(b@, pp as int, 16, 4, true, 65535);
            }
            match read_number(b, pp, 16, 4, true, 65535) {
                Some((g, q)) => {
                    let (mut rest, rp, rv) = read_groups(b, q, k + 1, limit);
                    let ghost old_rest = rest@;
                    rest.insert(0, g as u16);
                    assert(rest@ =~= seq![g as u16].add(old_rest));
                    (rest, rp, rv)
                },
                None => (Vec::new(), i, false),
            }
        },
        None => (Vec::new(), i, false),
    }
}

fn pack(groups: &Vec<u16>) -> (r: u128)
    requires
        groups@.len() == 8,
    ensures
        r as nat == pack_groups(groups@),
{
    let mut acc: u128 = 0;
    let mut k: usize = 0;
    while k < 8
        invariant
            groups@.len() == 8,
            k <= 8,
            acc as nat == pack_groups(groups@.subrange(0, k as int)),
            pack_groups(groups@.subrange(0, k as int)) < pow65536(k as nat),
        decreases 8 - k,
    {
        proof {
            let s = groups@.subrange(0, k as int + 1);
            assert(s.drop_last() =~= groups@.subrange(0, k as int));
            lemma_pack_bound(s);
            assert(pow65536(8) == 0x1_0000_0000_0000_0000_0000_0000_0000_0000) by {
                reveal_with_fuel(pow65536, 9);
            }
            lemma_pow_mono(k as nat + 1, 8);
        }
        acc = acc * 65536 + groups[k] as u128;
        k = k + 1;
    }
    assert(groups@.subrange(0, 8) =~= groups@);
    acc
}

proof fn lemma_pow_mono(m: nat, n: nat)
    requires
        m <= n,
    ensures
        pow65536(m) <= pow65536(n),
    decreases n,
{
    if m < n {
        lemma_pow_mono(m, (n - 1) as nat);
    }
}

fn read_ipv6(b: &[u8], i: usize) -> (r: Option<(u128, usize)>)
    requires
        i <= b@.len(),
    ensures
        match r {
            Some((v, j)) => ipv6_at(b@, i as int) == Some((v as nat, j as int)),
            None => ipv6_at(b@, i as int) is None,
        },
{
    proof {
        lemma_groups_end(b@, i as int, 0, 8);
    }
    let (head, hp, hv4) = read_groups(b, i, 0, 8);
    if head.len() == 8 {
        let v = pack(&head);
        return Some((v, hp));
    }
    if hv4 {
        return None;
    }
    if b.len() > 0 && hp < b.len() - 1 && b[hp] == 58 && b[hp + 1] == 58 {
        proof {
            lemma_groups_end(b@, hp + 2, 0, (7 - head@.len()) as nat);
        }
        let (tail, tp, _) = read_groups(b, hp + 2, 0, 7 - head.len());
        let mut all = head;
        let zeros = 8 - all.len() - tail.len();
        let ghost h = all@;
        let mut z: usize = 0;
        while z < zeros
            invariant
                all@ =~= h + Seq::new(z as nat, |j: int| 0u16),
                z <= zeros,
            decreases zeros - z,
        {
            all.push(0);
            z = z + 1;
        }
        let mut t: usize = 0;
        let ghost hz = all@;
        while t < tail.len()
            invariant
                all@ =~= hz + tail@.subrange(0, t as int),
                t <= tail@.len(),
            decreases tail@.len() - t,
        {
            all.push(tail[t]);
            t = t + 1;
        }
        assert(tail@.subrange(0, tail@.len() as int) =~= tail@);
        let v = pack(&all);
        return Some((v, tp));
    }
    None
}

fn read_port(b: &[u8], i: usize) -> (r: Option<(u16, usize)>)
    requires
        i <= b@.len(),
    ensures
        match r {
            Some((v, j)) => port_at(b@, i as int) == Some((v as nat, j as int)) && j <= b@.len(),
            None => port_at(b@, i as int) is None,
        },
{
    if i < b.len() && b[i] == 58 {
        proof {
            lemma_number_end(b@, i + 1, 10, b@.len(), true, 65535);
        }
        match read_number(b, i + 1, 10, b.len(), true, 65535) {
            Some((v, j)) => Some((v as u16, j)),
            None => None,
        }
    } else {
        None
    }
}

fn skip_scope(b: &[u8], i: usize) -> (r: usize)
    requires
        i <= b@.len(),
    ensures
        r as int == scope_end(b@, i as int),
        r <= b@.len(),
{
    if i < b.len() && b[i] == 37 {
        proof {
            lemma_number_end(b@, i + 1, 10, b@.len(), true, 0xffff_ffff);
        }
        match read_number(b, i + 1, 10, b.len(), true, 0xffff_ffff) {
            Some((_, j)) => j,
            None => i,
        }
    } else {
        i
    }
}

fn read_v6_sock(b: &[u8]) -> (r: Option<SockAddr>)
    ensures
        r == v6_sock_of(b@),
{
    if b.len() > 0 && b[0] == 91 {
        proof {
            lemma_ipv6_end(b@, 1);
        }
        match read_ipv6(b, 1) {
            Some((ip, j)) => {
                let s = skip_scope(b, j);
                if s < b.len() && b[s] == 93 {
                    match read_port(b, s + 1) {
                        Some((p, k)) => if k == b.len() {
                            Some(SockAddr::V6(ip, p))
                        } else {
                            None
                        },
                        None => None,
                    }
                } else {
                    None
                }
            },
            None => None,
        }
    } else {
        None
    }
}

/// Reads a socket address that fills the whole of `b`.
pub fn parse_sock_addr_bytes(b: &[u8]) -> (r: Option<SockAddr>)
    ensures
        r == sock_addr_of(b@),
{
    proof {
        lemma_ipv4_end(b@, 0);
    }
    match read_ipv4(b, 0) {
        Some((ip, j)) => match read_port(b, j) {
            Some((p, k)) => if k == b.len() {
                Some(SockAddr::V4(ip, p))
            } else {
                None
            },
            None => read_v6_sock(b),
        },
        None => read_v6_sock(b),
    }
}

/// Reads an IP address that fills the whole of `b`.
pub fn parse_ip_bytes(b: &[u8]) -> (r: Option<IpValue>)
    ensures
        r == ip_addr_of(b@),
{
    proof {
        lemma_ipv4_end(b@, 0);
        lemma_ipv6_end(b@, 0);
    }
    match read_ipv4(b, 0) {
        Some((ip, j)) => if j == b.len() {
            Some(IpValue::V4(ip))
        } else {
            None
        },
        None => match read_ipv6(b, 0) {
            Some((ip, j)) => if j == b.len() {
                Some(IpValue::V6(ip))
            } else {
                None
            },
            None => None,
        },
    }
}

/// Reads a socket address (`1.2.3.4:80`, `[::1]:80`) from a text.
pub fn parse_sock_addr(s: &str) -> (r: Option<SockAddr>)
    ensures
        r == sock_addr_text(s@),
{
    if s.is_ascii() {
        let b = crate::hexcode::ascii_bytes(s);
        assert(b@ =~= ascii_code(s@));
        parse_sock_addr_bytes(b)
    } else {
        None
    }
}

/// Reads an IP address (`1.2.3.4`, `::1`) from a text.
pub fn parse_ip(s: &str) -> (r: Option<IpValue>)
    ensures
        r == ip_addr_text(s@),
{
    if s.is_ascii() {
        let b = crate::hexcode::ascii_bytes(s);
        assert(b@ =~= ascii_code(s@));
        parse_ip_bytes(b)
    } else {
        None
    }
}

} // verus!
