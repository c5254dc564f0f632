//! Kademlia distances between 160-bit ids.
use crate::dht::id::{bytes_lt, law_xor_metric, lz_of, seq_lt, seq_lz, seq_xor};
use vstd::prelude::*;

verus! {

/// A 160-bit id in the Kademlia metric.
#[derive(Clone, Debug)]
pub struct NodeId([u8; 20]);

impl View for NodeId {
    type V = Seq<u8>;

    closed spec fn view(&self) -> Seq<u8> {
        self.0@
    }
}

/// The distance exponent of two ids: 160 less the leading zeros of their
/// XOR, so zero for equal ids.
pub open spec fn dist_exp_spec(a: Seq<u8>, b: Seq<u8>) -> int {
    160 - seq_lz(seq_xor(a, b))
}

/// The smallest distance exponent from `a` to the ids of `ids`, or 160 for
/// none.
pub open spec fn min_dist_exp_spec(a: Seq<u8>, ids: Seq<Seq<u8>>) -> int
    decreases ids.len(),
{
    if ids.len() == 0 {
        160
    } else {
        let rest = min_dist_exp_spec(a, ids.drop_last());
        let d = dist_exp_spec(a, ids.last());
        if d < rest {
            d
        } else {
            rest
        }
    }
}

/// Leading zeros of twenty bytes are at most 160.
proof fn lemma_seq_lz_bound(s: Seq<u8>)
    ensures
        seq_lz(s) <= 8 * s.len(),
    decreases s.len(),
{
    broadcast use vstd::std_specs::bits::axiom_u8_leading_zeros;

    if s.len() > 0 {
        lemma_seq_lz_bound(s.drop_first());
    }
}

impl Default for NodeId {
    fn default() -> (r: Self)
        ensures
            r@ == Seq::new(20, |i: int| 0u8),
    {
        let r = NodeId([0u8; 20]);
        assert(r@ =~= Seq::new(20, |i: int| 0u8));
        r
    }
}

impl From<[u8; 20]> for NodeId {
    fn from(bytes: [u8; 20]) -> (r: Self) {
        NodeId(bytes)
    }
}

impl vstd::std_specs::convert::FromSpecImpl<[u8; 20]> for NodeId {
    open spec fn obeys_from_spec() -> bool {
        true
    }

    closed spec fn from_spec(bytes: [u8; 20]) -> NodeId {
        NodeId(bytes)
    }
}

impl NodeId {
    /// The bytes of an id made from `bytes` are `bytes`.
    pub proof fn lemma_from_view(bytes: [u8; 20])
        ensures
            <NodeId as vstd::std_specs::convert::FromSpec<[u8; 20]>>::from_spec(bytes)@ == bytes@,
    {
    }

    /// The XOR distance to `other`.
    pub fn dist(&self, other: &Self) -> (r: Self)
        ensures
            r@ == seq_xor(self@, other@),
    {
        let mut data = [0u8; 20];
        let mut i: usize = 0;
        while i < 20
            invariant
                i <= 20,
                forall|j: int| 0 <= j < i ==> data@[j] == self@[j] ^ other@[j],
            decreases 20 - i,
        {
            data[i] = self.0[i] ^ other.0[i];
            i = i + 1;
        }
        let r = NodeId(data);
        assert(r@ =~= seq_xor(self@, other@));
        r
    }

    /// Whether `n1` is closer to `self` than `n2` is.
    pub fn compare_ref(&self, n1: &Self, n2: &Self) -> (r: bool)
        ensures
            r == seq_lt(seq_xor(self@, n1@), seq_xor(self@, n2@)),
    {
        let lhs = self.dist(n1);
        let rhs = self.dist(n2);
        bytes_lt(&lhs.0, &rhs.0)
    }

    /// The distance exponent to `other`: 160 less the leading zeros of the
    /// XOR distance.
    pub fn dist_exp(&self, other: &Self) -> (r: u32)
        ensures
            r == dist_exp_spec(self@, other@),
    {
        let d = self.dist(other);
        let lz = d.leading_zeros();
        proof {
            lemma_seq_lz_bound(d@);
        }
        160 - lz
    }

    /// The smallest distance exponent to the ids of `ids`, 160 for none.
    pub fn min_dist_exp(&self, ids: &[Self]) -> (r: u32)
        ensures
            r == min_dist_exp_spec(self@, ids@.map_values(|n: NodeId| n@)),
    {
        let ghost views = ids@.map_values(|n: NodeId| n@);
        let mut best: u32 = 160;
        let mut i: usize = 0;
        while i < ids.len()
            invariant
                i <= ids@.len(),
                views == ids@.map_values(|n: NodeId| n@),
                best == min_dist_exp_spec(self@, views.take(i as int)),
            decreases ids@.len() - i,
        {
            let d = self.dist_exp(&ids[i]);
            proof {
                assert(views.take(i + 1).drop_last() =~= views.take(i as int));
            }
            if d < best {
                best = d;
            }
            i = i + 1;
        }
        proof {
            assert(views.take(ids@.len() as int) =~= views);
        }
        best
    }

    /// Number of leading zero bits.
    pub fn leading_zeros(&self) -> (r: u32)
        ensures
            r == seq_lz(self@),
    {
        proof {
            lemma_seq_lz_bound(self@);
        }
        lz_of(&self.0) as u32
    }
}


/// An id has at most as many leading zero bits as it has bits, so the
/// distance exponent of two ids lies between 0 and 160.
pub proof fn law_lz_at_most_bits(a: Seq<u8>, b: Seq<u8>)
    requires
        a.len() == 20,
    ensures
        seq_lz(a) <= 160,
        0 <= dist_exp_spec(a, b) <= 160,
{
    lemma_seq_lz_bound(a);
    lemma_seq_lz_bound(seq_xor(a, b));
}

/// The smallest distance exponent is at most 160 and at most the exponent
/// to each id, and, when there are ids, it is the exponent to one of them.
pub proof fn law_min_dist_exp(a: Seq<u8>, ids: Seq<Seq<u8>>)
    ensures
        min_dist_exp_spec(a, ids) <= 160,
        forall|i: int| 0 <= i < ids.len() ==> min_dist_exp_spec(a, ids) <= #[trigger] dist_exp_spec(a, ids[i]),
        ids.len() > 0 ==> exists|i: int| 0 <= i < ids.len() && min_dist_exp_spec(a, ids) == #[trigger] dist_exp_spec(a, ids[i]),
    decreases ids.len(),
{
    if ids.len() > 0 {
        let rest = ids.drop_last();
        law_min_dist_exp(a, rest);
        assert forall|i: int| 0 <= i < ids.len() implies min_dist_exp_spec(a, ids) <= #[trigger] dist_exp_spec(a, ids[i]) by {
            if i < ids.len() - 1 {
                assert(rest[i] == ids[i]);
            }
        }
        if dist_exp_spec(a, ids.last()) < min_dist_exp_spec(a, rest) {
            assert(min_dist_exp_spec(a, ids) == dist_exp_spec(a, ids[ids.len() - 1]));
        } else if rest.len() > 0 {
            let i = choose|i: int| 0 <= i < rest.len() && min_dist_exp_spec(a, rest) == #[trigger] dist_exp_spec(a, rest[i]);
            assert(rest[i] == ids[i]);
        } else {
            lemma_seq_lz_bound(seq_xor(a, ids.last()));
            assert(min_dist_exp_spec(a, ids) == dist_exp_spec(a, ids[ids.len() - 1]));
        }
    }
}

/// `compare_ref` is a strict order: no id is closer than itself, and of
/// two ids at most one is the closer.
pub proof fn law_compare_ref(a: Seq<u8>, n1: Seq<u8>, n2: Seq<u8>)
    ensures
        !seq_lt(seq_xor(a, n1), seq_xor(a, n1)),
        seq_lt(seq_xor(a, n1), seq_xor(a, n2)) ==> !seq_lt(seq_xor(a, n2), seq_xor(a, n1)),
{
    let x = seq_xor(a, n1);
    let y = seq_xor(a, n2);
    if seq_lt(x, y) && seq_lt(y, x) {
        let k = choose|k: int| 0 <= k < x.len() && k < y.len() && x[k] < y[k] && forall|j: int| 0 <= j < k ==> x[j] == y[j];
        let m = choose|m: int| 0 <= m < y.len() && m < x.len() && y[m] < x[m] && forall|j: int| 0 <= j < m ==> y[j] == x[j];
        if k < m {
            assert(y[k] == x[k]);
        } else if m < k {
            assert(x[m] == y[m]);
        }
    }
}


/// An id is twenty bytes.
pub proof fn law_id_len(n: NodeId)
    ensures
        n@.len() == 20,
{
}

/// An id is closer to itself than another id exactly when that id is not
/// itself.
pub proof fn law_compare_self(a: Seq<u8>, n: Seq<u8>)
    requires
        a.len() == 20,
        n.len() == 20,
    ensures
        seq_lt(seq_xor(a, a), seq_xor(a, n)) == (n != a),
{
    let z = seq_xor(a, a);
    let y = seq_xor(a, n);
    assert forall|i: int| #![trigger z[i]] #![trigger y[i]] 0 <= i < 20 implies z[i] == 0u8 && (y[i] == 0u8 <==> a[i] == n[i]) by {
        let x = a[i];
        let w = n[i];
        assert(x ^ x == 0u8 && ((x ^ w == 0u8) <==> x == w)) by (bit_vector);
    }
    if n != a {
        assert(!(n =~= a));
        let k0 = choose|k: int| 0 <= k < 20 && n[k] != a[k];
        assert(y[k0] == 0u8 <==> a[k0] == n[k0]);
        let k = lemma_first_nonzero(y, k0);
        assert forall|j: int| 0 <= j < k implies z[j] == y[j] by {}
        assert(seq_lt(z, y));
    } else {
        assert forall|k: int| 0 <= k < 20 implies !(z[k] < y[k]) by {}
    }
}

/// The distance exponent is symmetric and is 0 exactly between equal
/// ids; so the smallest one to some ids is 0 exactly when they hold the
/// id itself.
pub proof fn law_dist_exp_zero(a: Seq<u8>, b: Seq<u8>, ids: Seq<Seq<u8>>)
    requires
        a.len() == 20,
        b.len() == 20,
        forall|i: int| 0 <= i < ids.len() ==> (#[trigger] ids[i]).len() == 20,
    ensures
        dist_exp_spec(a, b) == dist_exp_spec(b, a),
        dist_exp_spec(a, b) == 0 <==> a == b,
        ids.len() > 0 ==> (min_dist_exp_spec(a, ids) == 0 <==> ids.contains(a)),
{
    law_xor_metric(a, b);
    law_min_dist_exp(a, ids);
    if ids.len() > 0 {
        if min_dist_exp_spec(a, ids) == 0 {
            let i = choose|i: int| 0 <= i < ids.len() && min_dist_exp_spec(a, ids) == #[trigger] dist_exp_spec(a, ids[i]);
            law_xor_metric(a, ids[i]);
            assert(ids[i] == a);
        }
        if ids.contains(a) {
            let i = choose|i: int| 0 <= i < ids.len() && ids[i] == a;
            law_xor_metric(a, ids[i]);
            assert(dist_exp_spec(a, ids[i]) == 0);
            lemma_min_nonneg(a, ids);
        }
    }
}

/// The first non-zero byte at or before `k0`.
proof fn lemma_first_nonzero(y: Seq<u8>, k0: int) -> (k: int)
    requires
        0 <= k0 < y.len(),
        y[k0] != 0u8,
    ensures
        0 <= k <= k0,
        y[k] != 0u8,
        forall|j: int| 0 <= j < k ==> y[j] == 0u8,
    decreases k0,
{
    if exists|j: int| 0 <= j < k0 && y[j] != 0u8 {
        let j = choose|j: int| 0 <= j < k0 && y[j] != 0u8;
        lemma_first_nonzero(y, j)
    } else {
        k0
    }
}

/// The smallest distance exponent is not negative.
proof fn lemma_min_nonneg(a: Seq<u8>, ids: Seq<Seq<u8>>)
    requires
        a.len() == 20,
    ensures
        min_dist_exp_spec(a, ids) >= 0,
    decreases ids.len(),
{
    if ids.len() > 0 {
        lemma_min_nonneg(a, ids.drop_last());
        lemma_seq_lz_bound(seq_xor(a, ids.last()));
    }
}

} // verus!
