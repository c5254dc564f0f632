use crate::hexcode::{
    ascii_bytes, hex_decoded, hex_upper, hex_upper_encode, hex_upper_permissive_decode, hex_valid,
};
use rand::Rng;
use vstd::prelude::*;
use vstd::std_specs::bits::u8_leading_zeros;


verus! {

/// Number of leading zero bits of a big-endian byte string.
pub open spec fn seq_lz(s: Seq<u8>) -> nat
    decreases s.len(),
{
    if s.len() == 0 {
        0
    } else if s[0] == 0 {
        8 + seq_lz(s.drop_first())
    } else {
        u8_leading_zeros(s[0]) as nat
    }
}

/// Bytewise XOR of two byte strings (of the length of the first).
pub open spec fn seq_xor(a: Seq<u8>, b: Seq<u8>) -> Seq<u8> {
    Seq::new(a.len(), |i: int| a[i] ^ b[i])
}

/// Strict lexicographic order on byte strings of equal length: the order of
/// the ids read as 160-bit big-endian numbers.
pub open spec fn seq_lt(a: Seq<u8>, b: Seq<u8>) -> bool {
    exists|k: int|
        0 <= k < a.len() && k < b.len() && a[k] < b[k] && forall|j: int| 0 <= j < k ==> a[j] == b[j]
}

/// Byte `j` of the id whose `n` leading bits are clear and whose other bits
/// are set.
pub open spec fn mask_byte(n: int, j: int) -> u8 {
    if 8 * (j + 1) <= n {
        0
    } else if n <= 8 * j {
        0xff
    } else {
        0xffu8 >> ((n - 8 * j) as u8)
    }
}

/// The id whose `n` leading bits are clear and whose other bits are set
/// (all clear from 160 on).
pub open spec fn mask_lz_spec(n: int) -> Seq<u8> {
    Seq::new(20, |j: int| mask_byte(n, j))
}

/// Bytewise AND of two byte strings (of the length of the first).
pub open spec fn seq_and(a: Seq<u8>, b: Seq<u8>) -> Seq<u8> {
    Seq::new(a.len(), |i: int| a[i] & b[i])
}

/// Leading zeros of `0xff >> k` and of anything masked by it.
proof fn lemma_lz_shifted_mask(x: u8, k: u8)
    requires
        1 <= k < 8,
    ensures
        u8_leading_zeros(0xffu8 >> k) == k,
        u8_leading_zeros(x & (0xffu8 >> k)) >= k,
{
    broadcast use vstd::std_specs::bits::axiom_u8_leading_zeros;

    let m = 0xffu8 >> k;
    let l = u8_leading_zeros(m);
    assert(0 <= l <= 8);
    let lb = l as u8;
    assert(l < 8 ==> (m >> ((7 - lb) as u8)) & 1u8 != 0u8);
    assert(m >> ((8 - lb) as u8) == 0);
    assert(lb == k) by (bit_vector)
        requires
            1 <= k < 8,
            lb <= 8,
            m == 0xffu8 >> k,
            lb < 8 ==> (m >> ((7 - lb) as u8)) & 1u8 != 0u8,
            m >> ((8 - lb) as u8) == 0,
    ;
    let y = x & m;
    let ly = u8_leading_zeros(y) as u8;
    assert(ly < 8 ==> (y >> ((7 - ly) as u8)) & 1u8 != 0u8);
    assert(ly >= k) by (bit_vector)
        requires
            1 <= k < 8,
            ly <= 8,
            y == x & (0xffu8 >> k),
            ly < 8 ==> (y >> ((7 - ly) as u8)) & 1u8 != 0u8,
    ;
}

/// Leading zero bytes count eight bits each.
proof fn lemma_seq_lz_skip(s: Seq<u8>, k: int)
    requires
        0 <= k <= s.len(),
        forall|j: int| 0 <= j < k ==> s[j] == 0,
    ensures
        seq_lz(s) == 8 * k + seq_lz(s.skip(k)),
    decreases k,
{
    if k > 0 {
        assert(s.skip(1) =~= s.drop_first());
        lemma_seq_lz_skip(s.drop_first(), k - 1);
        assert(s.drop_first().skip(k - 1) =~= s.skip(k));
    } else {
        assert(s.skip(0) =~= s);
    }
}

/// The leading zeros of a string starting with a non-zero byte are those
/// of that byte.
proof fn lemma_seq_lz_first(s: Seq<u8>)
    requires
        s.len() > 0,
    ensures
        s[0] != 0 ==> seq_lz(s) == u8_leading_zeros(s[0]),
        s[0] == 0 ==> seq_lz(s) >= 8,
{
}

/// The mask of `n` leading zeros has `n` leading zeros (160 at most), and
/// whatever it masks has at least as many.
pub proof fn law_mask_lz(n: int, x: Seq<u8>)
    requires
        0 <= n,
        x.len() == 20,
    ensures
        seq_lz(mask_lz_spec(n)) == if n < 160 { n } else { 160 },
        seq_lz(seq_and(x, mask_lz_spec(n))) >= if n < 160 { n } else { 160 },
{
    let m = mask_lz_spec(n);
    let y = seq_and(x, m);
    if n >= 160 {
        assert forall|j: int| 0 <= j < 20 implies m[j] == 0 && y[j] == 0 by {
            assert(x[j] & 0 == 0) by (bit_vector);
        }
        lemma_seq_lz_skip(m, 20);
        lemma_seq_lz_skip(y, 20);
        assert(m.skip(20).len() == 0);
        assert(y.skip(20).len() == 0);
    } else {
        let q = n / 8;
        let r = n % 8;
        assert forall|j: int| 0 <= j < q implies m[j] == 0 && y[j] == 0 by {
            assert(8 * (j + 1) <= n);
            assert(x[j] & 0 == 0) by (bit_vector);
        }
        lemma_seq_lz_skip(m, q);
        lemma_seq_lz_skip(y, q);
        let ms = m.skip(q);
        let ys = y.skip(q);
        lemma_seq_lz_first(ms);
        lemma_seq_lz_first(ys);
        if r == 0 {
            assert(ms[0] == 0xff);
            assert(u8_leading_zeros(0xff) == 0) by {
                broadcast use vstd::std_specs::bits::axiom_u8_leading_zeros;

                let l = u8_leading_zeros(0xff) as u8;
                assert(l < 8 ==> (0xffu8 >> ((7 - l) as u8)) & 1u8 != 0u8);
                assert(0xffu8 >> ((8 - l) as u8) == 0);
                assert(l == 0) by (bit_vector)
                    requires
                        l <= 8,
                        0xffu8 >> ((8 - l) as u8) == 0,
                ;
            }
        } else {
            assert(ms[0] == 0xffu8 >> (r as u8));
            lemma_lz_shifted_mask(x[q], r as u8);
            assert(ys[0] == x[q] & (0xffu8 >> (r as u8)));
            broadcast use vstd::std_specs::bits::axiom_u8_leading_zeros;

        }
    }
}

/// Fills `buf` with bytes from the thread-local random generator
/// (`rand::Rng::fill` on `rand::thread_rng()`); nothing is promised of them.
#[verifier::external_body]
pub(crate) fn fill_random(buf: &mut [u8; 20]) {
    rand::thread_rng().fill(&mut buf[..])
}

/// Errors of reading a node id from text.
#[derive(Debug, Clone, Copy, PartialEq, Eq)]
pub enum IdError {
    /// The text does not have the length of a hex encoded id.
    InvalidLength,
    /// The text holds a character that is not a hex digit.
    InvalidHex,
}

/// A 160-bit Kademlia node id.
#[derive(Clone, Copy, Default, PartialEq, Eq, PartialOrd, Ord, Hash, Debug)]
pub struct NodeId(pub [u8; 20]);

impl View for NodeId {
    type V = Seq<u8>;

    open spec fn view(&self) -> Seq<u8> {
        self.0@
    }
}

impl NodeId {
    pub const LEN: usize = 20;

    /// The all-zero id.
    pub fn new() -> (r: Self)
        ensures
            r@ == Seq::new(20, |i: int| 0u8),
    {
        Self::of_byte(0)
    }

    /// The id whose twenty bytes are all `b`.
    pub fn all(b: u8) -> (r: Self)
        ensures
            r@ == Seq::new(20, |i: int| b),
    {
        Self::of_byte(b)
    }

    /// The id whose `leading_zeros` first bits are clear and whose other
    /// bits are set; all clear from 160 on.
    pub fn mask_lz(leading_zeros: usize) -> (r: Self)
        ensures
            r@ == mask_lz_spec(leading_zeros as int),
    {
        if leading_zeros >= 160 {
            let r = Self::new();
            assert(r@ =~= mask_lz_spec(leading_zeros as int));
            return r;
        }
        let mut id = Self::max();
        let q = leading_zeros / 8;
        let mut i: usize = 0;
        while i < q
            invariant
                q == leading_zeros / 8,
                leading_zeros < 160,
                i <= q,
                id@.len() == 20,
                forall|j: int| 0 <= j < i ==> id@[j] == 0,
                forall|j: int| i <= j < 20 ==> id@[j] == 0xff,
            decreases q - i,
        {
            id.0[i] = 0;
            i = i + 1;
        }
        if leading_zeros % 8 != 0 {
            id.0[q] = 0xffu8 >> ((leading_zeros % 8) as u8);
        }
        assert(id@ =~= mask_lz_spec(leading_zeros as int));
        id
    }

    /// A random id with at least `leading_zeros` leading zero bits (at most
    /// 160): a random id masked by [`NodeId::mask_lz`].
    pub fn gen_lz(leading_zeros: usize) -> (r: Self)
        ensures
            exists|g: Seq<u8>| g.len() == 20 && r@ == seq_and(g, mask_lz_spec(leading_zeros as int)),
            seq_lz(r@) >= if leading_zeros < 160 { leading_zeros as int } else { 160 },
    {
        let mask = Self::mask_lz(leading_zeros);
        let gen = Self::gen();
        let r = gen.and(&mask);
        proof {
            law_mask_lz(leading_zeros as int, gen@);
        }
        r
    }

    /// Bytewise AND of two ids.
    pub fn and(&self, other: &Self) -> (r: Self)
        ensures
            r@ == seq_and(self@, other@),
    {
        let mut n = Self::new();
        let mut i: usize = 0;
        while i < 20
            invariant
                i <= 20,
                n@.len() == 20,
                forall|j: int| 0 <= j < i ==> n@[j] == self@[j] & other@[j],
            decreases 20 - i,
        {
            n.0[i] = self.0[i] & other.0[i];
            i = i + 1;
        }
        assert(n@ =~= seq_and(self@, other@));
        n
    }

    /// Reads an id from its forty-digit hex text (either case); the same as
    /// [`NodeId::decode_hex`].
    pub fn from_hex(hex: &[u8]) -> (r: Result<Self, IdError>)
        ensures
            hex@.len() != 40 ==> r == Err::<Self, IdError>(IdError::InvalidLength),
            hex@.len() == 40 && !hex_valid(hex@) ==> r == Err::<Self, IdError>(
                IdError::InvalidHex,
            ),
            hex@.len() == 40 && hex_valid(hex@) ==> (r matches Ok(n) && n@ == hex_decoded(hex@)),
    {
        Self::decode_hex(hex)
    }

    /// The all-ones id.
    pub fn max() -> (r: Self)
        ensures
            r@ == Seq::new(20, |i: int| 0xffu8),
    {
        Self::of_byte(0xff)
    }

    /// The id whose twenty bytes are all `b`.
    pub fn of_byte(b: u8) -> (r: Self)
        ensures
            r@ == Seq::new(20, |i: int| b),
    {
        let r = Self([b; 20]);
        assert(r@ =~= Seq::new(20, |i: int| b));
        r
    }

    pub fn is_zero(&self) -> (r: bool)
        ensures
            r == (forall|i: int| 0 <= i < 20 ==> self@[i] == 0),
    {
        let mut i: usize = 0;
        while i < 20
            invariant
                i <= 20,
                forall|j: int| 0 <= j < i ==> self@[j] == 0,
            decreases 20 - i,
        {
            if self.0[i] != 0 {
                assert(self@[i as int] != 0);
                return false;
            }
            i = i + 1;
        }
        true
    }

    /// A random id.
    pub fn gen() -> (r: Self)
        ensures
            r@.len() == 20,
    {
        let mut n = Self::new();
        fill_random(&mut n.0);
        n
    }

    /// Reads an id from its forty-digit hex text (either case).
    pub fn decode_hex(hex: &[u8]) -> (r: Result<Self, IdError>)
        ensures
            hex@.len() != 40 ==> r == Err::<Self, IdError>(IdError::InvalidLength),
            hex@.len() == 40 && !hex_valid(hex@) ==> r == Err::<Self, IdError>(
                IdError::InvalidHex,
            ),
            hex@.len() == 40 && hex_valid(hex@) ==> (r matches Ok(n) && n@ == hex_decoded(hex@)),
    {
        if hex.len() != 40 {
            return Err(IdError::InvalidLength);
        }
        match hex_upper_permissive_decode(hex) {
            None => Err(IdError::InvalidHex),
            Some(bytes) => Ok(Self::from_slice_20(&bytes)),
        }
    }

    /// Copies a twenty-byte slice into an id.
    pub fn from_slice_20(b: &[u8]) -> (r: Self)
        requires
            b@.len() == 20,
        ensures
            r@ == b@,
    {
        let mut n = Self::new();
        let mut i: usize = 0;
        while i < 20
            invariant
                i <= 20,
                b@.len() == 20,
                forall|j: int| 0 <= j < i ==> n@[j] == b@[j],
            decreases 20 - i,
        {
            n.0[i] = b[i];
            i = i + 1;
        }
        assert(n@ =~= b@);
        n
    }

    /// Writes the upper-case hex text of this id into `buf`, which must
    /// have room for exactly forty digits.
    pub fn encode_hex(&self, buf: &mut [u8]) -> (r: Result<(), IdError>)
        ensures
            old(buf)@.len() != 40 ==> r == Err::<(), IdError>(IdError::InvalidLength) && final(buf)@ == old(buf)@,
            old(buf)@.len() == 40 ==> r is Ok && final(buf)@ == hex_upper(self@),
    {
        if buf.len() != 40 {
            return Err(IdError::InvalidLength);
        }
        let text = hex_upper_encode(&self.0);
        proof {
            crate::hexcode::lemma_hex_upper_ascii(self@);
        }
        let bytes = ascii_bytes(text.as_str());
        let mut i: usize = 0;
        while i < 40
            invariant
                i <= 40,
                buf@.len() == 40,
                bytes@.len() == 40,
                forall|j: int| 0 <= j < 40 ==> bytes@[j] == hex_upper(self@)[j],
                forall|j: int| 0 <= j < i ==> buf@[j] == hex_upper(self@)[j],
            decreases 40 - i,
        {
            buf[i] = bytes[i];
            i = i + 1;
        }
        assert(buf@ =~= hex_upper(self@));
        Ok(())
    }

    /// Returns number of leading zeros.
    pub fn lz(&self) -> (n: usize)
        ensures
            n == seq_lz(self@),
    {
        lz_of(&self.0)
    }

    /// Returns number of leading zeros of `XOR` of `self` with given `NodeId`
    pub fn xlz(&self, other: &Self) -> (n: usize)
        ensures
            n == seq_lz(seq_xor(self@, other@)),
    {
        self.xor(other).lz()
    }

    pub fn as_bytes(&self) -> (r: &[u8; 20])
        ensures
            r@ == self@,
    {
        &self.0
    }

    /// Bytewise XOR of two ids: their distance in the Kademlia metric.
    pub fn xor(&self, other: &Self) -> (r: Self)
        ensures
            r@ == seq_xor(self@, other@),
    {
        let mut n = Self::new();
        let mut i: usize = 0;
        while i < 20
            invariant
                i <= 20,
                n@.len() == 20,
                forall|j: int| 0 <= j < i ==> n@[j] == self@[j] ^ other@[j],
            decreases 20 - i,
        {
            n.0[i] = self.0[i] ^ other.0[i];
            i = i + 1;
        }
        assert(n@ =~= seq_xor(self@, other@));
        n
    }

    /// Whether two ids are equal.
    pub fn same(&self, other: &Self) -> (r: bool)
        ensures
            r == (self@ == other@),
    {
        let mut i: usize = 0;
        while i < 20
            invariant
                i <= 20,
                forall|j: int| 0 <= j < i ==> self@[j] == other@[j],
            decreases 20 - i,
        {
            if self.0[i] != other.0[i] {
                return false;
            }
            i = i + 1;
        }
        assert(self@ =~= other@);
        true
    }

    /// Whether `self` is smaller than `other` as a big-endian number.
    pub fn less_than(&self, other: &Self) -> (r: bool)
        ensures
            r == seq_lt(self@, other@),
    {
        bytes_lt(&self.0, &other.0)
    }
}

/// Whether `a` is smaller than `b` as a big-endian number.
pub fn bytes_lt(a: &[u8; 20], b: &[u8; 20]) -> (r: bool)
    ensures
        r == seq_lt(a@, b@),
{
    let mut i: usize = 0;
    while i < 20
        invariant
            i <= 20,
            forall|j: int| 0 <= j < i ==> a@[j] == b@[j],
        decreases 20 - i,
    {
        if a[i] != b[i] {
            if a[i] < b[i] {
                assert(a@[i as int] < b@[i as int]);
                return true;
            } else {
                assert forall|k: int|
                    0 <= k < 20 && a@[k] < b@[k] implies !(forall|j: int|
                    0 <= j < k ==> a@[j] == b@[j]) by {
                    if k > i {
                        assert(a@[i as int] != b@[i as int]);
                    }
                }
                return false;
            }
        }
        i = i + 1;
    }
    false
}

/// Number of leading zero bits of a twenty-byte string.
pub fn lz_of(a: &[u8; 20]) -> (n: usize)
    ensures
        n == seq_lz(a@),
{
    let mut n: usize = 0;
    let mut i: usize = 0;
    assert(a@.skip(0) =~= a@);
    while i < 20
        invariant
            i <= 20,
            a@.len() == 20,
            n == 8 * i,
            seq_lz(a@) == n + seq_lz(a@.skip(i as int)),
        decreases 20 - i,
    {
        let c = a[i];
        assert(a@.skip(i as int)[0] == c);
        if c == 0 {
            assert(a@.skip(i as int).drop_first() =~= a@.skip(i + 1));
            n = n + 8;
            i = i + 1;
        } else {
            return n + c.leading_zeros() as usize;
        }
    }
    assert(a@.skip(20) =~= Seq::<u8>::empty());
    n
}

/// XOR distance is symmetric, undoes itself, and is zero (160 leading
/// zeros) exactly from an id to itself.
pub proof fn law_xor_metric(a: Seq<u8>, b: Seq<u8>)
    requires
        a.len() == 20,
        b.len() == 20,
    ensures
        seq_xor(a, b) == seq_xor(b, a),
        seq_xor(seq_xor(a, b), b) == a,
        seq_lz(seq_xor(a, b)) == 160 <==> a == b,
{
    assert forall|i: int| 0 <= i < 20 implies #[trigger] seq_xor(a, b)[i] == seq_xor(b, a)[i]
        && seq_xor(seq_xor(a, b), b)[i] == a[i] && (seq_xor(a, b)[i] == 0 <==> a[i] == b[i]) by {
        let x = a[i];
        let y = b[i];
        assert(x ^ y == y ^ x && (x ^ y) ^ y == x && ((x ^ y == 0) <==> x == y)) by (bit_vector);
    }
    assert(seq_xor(a, b) =~= seq_xor(b, a));
    assert(seq_xor(seq_xor(a, b), b) =~= a);
    let d = seq_xor(a, b);
    if forall|k: int| 0 <= k < 20 ==> a[k] == b[k] {
        assert(a =~= b);
        lemma_seq_lz_skip(d, 20);
        assert(d.skip(20).len() == 0);
    } else {
        let k = choose|k: int| 0 <= k < 20 && a[k] != b[k];
        lemma_seq_lz_below(d, k);
    }
}

/// A string with a non-zero byte at `k` has fewer than `8 * (k + 1)`
/// leading zeros.
proof fn lemma_seq_lz_below(s: Seq<u8>, k: int)
    requires
        0 <= k < s.len(),
        s[k] != 0,
    ensures
        seq_lz(s) < 8 * (k + 1),
    decreases k,
{
    broadcast use vstd::std_specs::bits::axiom_u8_leading_zeros;

    if s[0] != 0 {
    } else {
        assert(s.drop_first()[k - 1] == s[k]);
        lemma_seq_lz_below(s.drop_first(), k - 1);
    }
}

/// Two ids with the same bytes are the same id.
pub proof fn lemma_id_view_eq(a: NodeId, b: NodeId)
    requires
        a@ == b@,
    ensures
        a == b,
{
    assert(a.0 =~= b.0) by {
        assert forall|i: int| 0 <= i < 20 implies a.0[i] == b.0[i] by {
            assert(a@[i] == b@[i]);
        }
    }
}

/// The id with bytes `s`, of length twenty.
pub open spec fn id_of(s: Seq<u8>) -> NodeId {
    choose|n: NodeId| n@ == s
}

pub proof fn lemma_id_of(n: NodeId)
    ensures
        id_of(n@) == n,
{
    let c = id_of(n@);
    assert(exists|m: NodeId| m@ == n@);
    lemma_id_view_eq(c, n);
}

impl<'a> core::ops::BitXor<&'a NodeId> for &'a NodeId {
    type Output = NodeId;

    fn bitxor(self, other: &NodeId) -> (r: NodeId) {
        let r = self.xor(other);
        proof {
            lemma_id_of(r);
        }
        r
    }
}

impl<'a> vstd::std_specs::ops::BitXorSpecImpl<&'a NodeId> for &'a NodeId {
    open spec fn obeys_bitxor_spec() -> bool {
        true
    }

    open spec fn bitxor_req(self, rhs: &'a NodeId) -> bool {
        true
    }

    open spec fn bitxor_spec(self, rhs: &'a NodeId) -> NodeId {
        id_of(seq_xor(self@, rhs@))
    }
}

impl core::ops::BitXor<NodeId> for NodeId {
    type Output = NodeId;

    fn bitxor(self, other: NodeId) -> (r: NodeId) {
        let r = self.xor(&other);
        proof {
            lemma_id_of(r);
        }
        r
    }
}

impl vstd::std_specs::ops::BitXorSpecImpl<NodeId> for NodeId {
    open spec fn obeys_bitxor_spec() -> bool {
        true
    }

    open spec fn bitxor_req(self, rhs: NodeId) -> bool {
        true
    }

    open spec fn bitxor_spec(self, rhs: NodeId) -> NodeId {
        id_of(seq_xor(self@, rhs@))
    }
}

impl<'a> core::ops::BitAnd<&'a NodeId> for &'a NodeId {
    type Output = NodeId;

    fn bitand(self, other: &NodeId) -> (r: NodeId) {
        let r = self.and(other);
        proof {
            lemma_id_of(r);
        }
        r
    }
}

impl<'a> vstd::std_specs::ops::BitAndSpecImpl<&'a NodeId> for &'a NodeId {
    open spec fn obeys_bitand_spec() -> bool {
        true
    }

    open spec fn bitand_req(self, rhs: &'a NodeId) -> bool {
        true
    }

    open spec fn bitand_spec(self, rhs: &'a NodeId) -> NodeId {
        id_of(seq_and(self@, rhs@))
    }
}

impl core::ops::BitAnd<NodeId> for NodeId {
    type Output = NodeId;

    fn bitand(self, other: NodeId) -> (r: NodeId) {
        let r = self.and(&other);
        proof {
            lemma_id_of(r);
        }
        r
    }
}

impl vstd::std_specs::ops::BitAndSpecImpl<NodeId> for NodeId {
    open spec fn obeys_bitand_spec() -> bool {
        true
    }

    open spec fn bitand_req(self, rhs: NodeId) -> bool {
        true
    }

    open spec fn bitand_spec(self, rhs: NodeId) -> NodeId {
        id_of(seq_and(self@, rhs@))
    }
}

/// A uniform sampler of ids in a range: below `high` (or up to it when
/// `inclusive`) and from `low` on.
#[derive(Debug, Clone, Copy)]
pub struct UniformNodeId {
    pub low: NodeId,
    pub high: NodeId,
    pub inclusive: bool,
}

/// Whether an id falls in the range of a sampler: up to `high` (strictly
/// below it unless `inclusive`), and from `low` on (any when `low` is
/// zero).
pub open spec fn in_range(u: UniformNodeId, x: Seq<u8>) -> bool {
    let low_is_zero = forall|i: int| 0 <= i < 20 ==> u.low@[i] == 0;
    &&& if u.inclusive {
        !seq_lt(u.high@, x)
    } else {
        seq_lt(x, u.high@)
    }
    &&& (low_is_zero || !seq_lt(x, u.low@))
}

impl UniformNodeId {
    /// The sampler of ids from `low` to below `high`; `low` must be below
    /// `high`.
    pub fn new(low: &NodeId, high: &NodeId) -> (r: Self)
        requires
            seq_lt(low@, high@),
        ensures
            r.low == *low && r.high == *high && !r.inclusive,
    {
        UniformNodeId { low: *low, high: *high, inclusive: false }
    }

    /// The sampler of ids from `low` up to `high`; `low` must not be above
    /// `high`.
    pub fn new_inclusive(low: &NodeId, high: &NodeId) -> (r: Self)
        requires
            !seq_lt(high@, low@),
        ensures
            r.low == *low && r.high == *high && r.inclusive,
    {
        UniformNodeId { low: *low, high: *high, inclusive: true }
    }

    /// Whether a drawn id is kept.
    pub fn accepts(&self, x: &NodeId) -> (r: bool)
        ensures
            r == in_range(*self, x@),
    {
        let low_is_zero = self.low.is_zero();
        let below_high = if self.inclusive {
            !self.high.less_than(x)
        } else {
            x.less_than(&self.high)
        };
        below_high && (low_is_zero || !x.less_than(&self.low))
    }

    /// One draw: a random id, kept when it falls in the range.
    pub fn sample_once(&self) -> (r: Option<NodeId>)
        ensures
            r matches Some(x) ==> in_range(*self, x@),
    {
        let mut out = NodeId::new();
        fill_random(&mut out.0);
        if self.accepts(&out) {
            Some(out)
        } else {
            None
        }
    }
}


/// Bit `k` of a byte string read as a big-endian number, bit 0 the most
/// significant bit of the first byte.
pub open spec fn id_bit(s: Seq<u8>, k: int) -> u8 {
    (s[k / 8] >> ((7 - k % 8) as u8)) & 1u8
}

/// Bit `k` past the first byte is bit `k - 8` of the rest.
proof fn lemma_id_bit_rest(s: Seq<u8>, k: int)
    requires
        8 <= k < 8 * s.len(),
    ensures
        id_bit(s, k) == id_bit(s.drop_first(), k - 8),
{
    assert((k - 8) / 8 == k / 8 - 1 && (k - 8) % 8 == k % 8) by (nonlinear_arith)
        requires
            8 <= k,
    ;
    assert(0 <= k / 8 - 1) by (nonlinear_arith)
        requires
            8 <= k,
    ;
}

/// Bits of a single byte.
proof fn lemma_byte_bits(x: u8, k: int)
    requires
        0 <= k < 8,
    ensures
        k / 8 == 0,
        k % 8 == k,
        ((x >> ((7 - k) as u8)) & 1u8) == 0u8 || ((x >> ((7 - k) as u8)) & 1u8) == 1u8,
        x == 0u8 ==> ((x >> ((7 - k) as u8)) & 1u8) == 0u8,
{
    let j = (7 - k) as u8;
    assert(((x >> j) & 1u8) == 0u8 || ((x >> j) & 1u8) == 1u8) by (bit_vector);
    assert(x == 0u8 ==> ((x >> j) & 1u8) == 0u8) by (bit_vector);
}

/// The leading zeros of a byte string are the number of its leading zero
/// bits: at most its bits, all of them exactly when every byte is zero,
/// and else each bit before the count is 0 and the bit at the count is 1.
pub proof fn law_lz_bits(s: Seq<u8>)
    ensures
        seq_lz(s) <= 8 * s.len(),
        seq_lz(s) == 8 * s.len() <==> forall|i: int| 0 <= i < s.len() ==> s[i] == 0u8,
        seq_lz(s) < 8 * s.len() ==> id_bit(s, seq_lz(s) as int) == 1u8 && forall|k: int|
            0 <= k < seq_lz(s) ==> #[trigger] id_bit(s, k) == 0u8,
    decreases s.len(),
{
    broadcast use vstd::std_specs::bits::axiom_u8_leading_zeros;

    if s.len() > 0 {
        let t = s.drop_first();
        law_lz_bits(t);
        let x = s[0];
        if x == 0u8 {
            assert(seq_lz(s) == 8 + seq_lz(t));
            assert((forall|i: int| 0 <= i < s.len() ==> s[i] == 0u8) <==> (forall|i: int| 0 <= i < t.len() ==> t[i] == 0u8)) by {
                if forall|i: int| 0 <= i < t.len() ==> t[i] == 0u8 {
                    assert forall|i: int| 0 <= i < s.len() implies s[i] == 0u8 by {
                        if i > 0 {
                            assert(s[i] == t[i - 1]);
                        }
                    }
                }
            }
            if seq_lz(s) < 8 * s.len() {
                lemma_id_bit_rest(s, seq_lz(s) as int);
                assert forall|k: int| 0 <= k < seq_lz(s) implies #[trigger] id_bit(s, k) == 0u8 by {
                    if k < 8 {
                        lemma_byte_bits(x, k);
                    } else {
                        lemma_id_bit_rest(s, k);
                        assert(id_bit(t, k - 8) == 0u8);
                    }
                }
            }
        } else {
            let lz = u8_leading_zeros(x);
            assert(lz < 8);
            assert(seq_lz(s) == lz);
            assert(exists|i: int| 0 <= i < s.len() && s[i] != 0u8);
            lemma_byte_bits(x, lz as int);
            assert forall|k: int| 0 <= k < seq_lz(s) implies #[trigger] id_bit(s, k) == 0u8 by {
                lemma_byte_bits(x, k);
                let j = (7 - k) as u8;
                assert(8 - lz <= j < 8);
                assert((x >> j) & 1u8 == 0u8);
            }
        }
    }
}

} // verus!
