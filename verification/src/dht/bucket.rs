use crate::clock::{elapsed_millis, now};
use crate::dht::contact::{Contact, ContactRef};
use crate::dht::id::{seq_lz, seq_xor, NodeId};
use std::time::Instant;
use vstd::prelude::*;

verus! {

broadcast use vstd::seq_lib::group_filter_ensures;

/// Leading zero bits of the distance of `id` from `own`: the index of the
/// bucket that `id` belongs to in a table with enough buckets.
pub open spec fn xlz_of(own: Seq<u8>, id: Seq<u8>) -> nat {
    seq_lz(seq_xor(own, id))
}

/// The contacts that stay in a bucket of index `index` when it splits.
pub open spec fn stays(own: Seq<u8>, index: int) -> spec_fn(Contact) -> bool {
    |c: Contact| xlz_of(own, c.id@) <= index
}

/// The contacts that move to the next bucket when a bucket of index
/// `index` splits.
pub open spec fn moves(own: Seq<u8>, index: int) -> spec_fn(Contact) -> bool {
    |c: Contact| xlz_of(own, c.id@) > index
}

/// The (id, address) pairs of the contacts of `s` that have not failed.
pub open spec fn answering(s: Seq<Contact>) -> Seq<(Seq<u8>, crate::dht::contact::SockAddr)>
    decreases s.len(),
{
    if s.len() == 0 {
        Seq::empty()
    } else {
        let rest = answering(s.drop_last());
        if s.last().spec_fail_count() > 0 {
            rest
        } else {
            rest.push((s.last().id@, s.last().addr))
        }
    }
}

/// Some contact of `s` that has not failed has this id and address.
pub open spec fn answers_for(s: Seq<Contact>, x: (Seq<u8>, crate::dht::contact::SockAddr)) -> bool {
    exists|j: int| 0 <= j < s.len() && (#[trigger] s[j]).spec_fail_count() == 0 && (s[j].id@, s[j].addr) == x
}

/// A bucket hands out exactly its contacts that have not failed: each
/// contact handed out is one of them with a fail count of zero, and each
/// of them is handed out, in order, one entry each.
pub proof fn law_answering_not_failed(s: Seq<Contact>)
    ensures
        forall|k: int| 0 <= k < answering(s).len() ==> answers_for(s, #[trigger] answering(s)[k]),
        forall|j: int|
            0 <= j < s.len() && (#[trigger] s[j]).spec_fail_count() == 0 ==> answering(s).contains((s[j].id@, s[j].addr)),
        answering(s).len() == s.filter(|c: Contact| c.spec_fail_count() == 0).len(),
        answering(s) == s.filter(|c: Contact| c.spec_fail_count() == 0).map_values(
            |c: Contact| (c.id@, c.addr),
        ),
    decreases s.len(),
{
    if s.len() > 0 {
        let t = s.drop_last();
        law_answering_not_failed(t);
        let rest = answering(t);
        let c = s.last();
        assert(s.filter(|c: Contact| c.spec_fail_count() == 0) == if c.spec_fail_count() == 0 {
            t.filter(|c: Contact| c.spec_fail_count() == 0).push(c)
        } else {
            t.filter(|c: Contact| c.spec_fail_count() == 0)
        }) by {
            assert(s =~= t.push(c));
            t.lemma_filter_push(c, |c: Contact| c.spec_fail_count() == 0);
        }
        let ft = t.filter(|c: Contact| c.spec_fail_count() == 0);
        if c.spec_fail_count() == 0 {
            assert(ft.push(c).map_values(|c: Contact| (c.id@, c.addr)) =~= ft.map_values(|c: Contact| (c.id@, c.addr)).push(
                (c.id@, c.addr),
            ));
        }
        assert forall|k: int| 0 <= k < answering(s).len() implies answers_for(s, #[trigger] answering(s)[k]) by {
            if k < rest.len() {
                assert(answering(s)[k] == rest[k]);
                assert(answers_for(t, rest[k]));
                let j = choose|j: int| 0 <= j < t.len() && (#[trigger] t[j]).spec_fail_count() == 0 && (t[j].id@, t[j].addr) == rest[k];
                assert(s[j] == t[j]);
            } else {
                assert(s[s.len() - 1] == c);
            }
        }
        assert forall|j: int| 0 <= j < s.len() && (#[trigger] s[j]).spec_fail_count() == 0 implies answering(s).contains((s[j].id@, s[j].addr)) by {
            if j < t.len() {
                assert(s[j] == t[j]);
                assert(rest.contains((t[j].id@, t[j].addr)));
                let m = choose|m: int| 0 <= m < rest.len() && rest[m] == (t[j].id@, t[j].addr);
                assert(answering(s)[m] == rest[m]);
            } else {
                assert(answering(s) == rest.push((c.id@, c.addr)));
                assert(answering(s)[rest.len() as int] == (c.id@, c.addr));
            }
        }
    } else {
        assert(s.filter(|c: Contact| c.spec_fail_count() == 0) =~= Seq::<Contact>::empty());
        assert(Seq::<Contact>::empty().map_values(|c: Contact| (c.id@, c.addr)) =~= answering(s));
    }
}

/// The outcome of trying to place a contact in a bucket.
#[derive(Debug, Clone, Copy, PartialEq, Eq, Structural)]
pub enum BucketResult {
    Success,
    Fail,
    /// No room in the bucket: it has to be split, or the contact placed
    /// elsewhere.
    RequireSplit,
}

/// A bucket of the routing table: up to `MAX_LEN` live contacts and up to
/// `MAX_LEN` replacement candidates.
#[derive(Debug)]
pub struct Bucket {
    pub live: Vec<Contact>,
    pub extra: Vec<Contact>,
    pub last_updated: Instant,
}

/// How long a bucket may go without an update, in milliseconds: fifteen
/// minutes.
pub const REFRESH_INTERVAL_MS: u128 = 15 * 60 * 1000;

/// Whether a bucket last updated `elapsed_ms` milliseconds ago needs a
/// refresh.
pub fn is_stale(elapsed_ms: u128) -> (r: bool)
    ensures
        r == (elapsed_ms > REFRESH_INTERVAL_MS),
{
    elapsed_ms > REFRESH_INTERVAL_MS
}

impl Bucket {
    // The 'K' constant in Kademlia algorithm
    pub const MAX_LEN: usize = 8;

    pub fn new() -> (r: Self)
        ensures
            r.live@.len() == 0,
            r.extra@.len() == 0,
    {
        Bucket { live: Vec::new(), extra: Vec::new(), last_updated: now() }
    }

    /// Appends the live contacts that have not failed, in order.
    pub fn get_contacts<'a>(&'a self, out: &mut Vec<ContactRef<'a>>)
        ensures
            final(out)@.len() >= old(out)@.len(),
            forall|k: int| 0 <= k < old(out)@.len() ==> final(out)@[k] == old(out)@[k],
            final(out)@.skip(old(out)@.len() as int).map_values(|r: ContactRef<'a>| (r.id@, r.addr))
                == answering(self.live@),
            forall|k: int| old(out)@.len() <= k < final(out)@.len() ==> answers_for(self.live@, ((#[trigger] final(out)@[k]).id@, final(out)@[k].addr)),
    {
        let ghost start = out@;
        let mut i: usize = 0;
        while i < self.live.len()
            invariant
                i <= self.live@.len(),
                out@.len() >= start.len(),
                forall|k: int| 0 <= k < start.len() ==> out@[k] == start[k],
                out@.skip(start.len() as int).map_values(|r: ContactRef<'a>| (r.id@, r.addr))
                    == answering(self.live@.take(i as int)),
            decreases self.live@.len() - i,
        {
            let ghost before = out@;
            let c = &self.live[i];
            assert(self.live@.take(i + 1).drop_last() =~= self.live@.take(i as int));
            if !c.failed() {
                let r = c.as_ref();
                out.push(r);
                assert(out@.skip(start.len() as int) =~= before.skip(start.len() as int).push(r));
            }
            i = i + 1;
        }
        assert(self.live@.take(self.live@.len() as int) =~= self.live@);
        proof {
            law_answering_not_failed(self.live@);
            let m = out@.skip(start.len() as int).map_values(|r: ContactRef<'a>| (r.id@, r.addr));
            assert forall|k: int| start.len() <= k < out@.len() implies answers_for(self.live@, ((#[trigger] out@[k]).id@, out@[k].addr)) by {
                assert(m[k - start.len()] == answering(self.live@)[k - start.len()]);
                assert(out@.skip(start.len() as int)[k - start.len()] == out@[k]);
            }
        }
    }

    /// Whether the bucket was last updated more than fifteen minutes ago
    /// (see [`is_stale`]); the time that passed is the clock's.
    pub fn need_refresh(&self) -> bool {
        is_stale(elapsed_millis(&self.last_updated))
    }

    /// The contact, live or extra, with the highest fail count (the last
    /// one among equals, live contacts coming first); `None` for an empty
    /// bucket.
    pub fn most_failed(&self) -> (r: Option<&Contact>)
        ensures
            r is None <==> self.live@.len() + self.extra@.len() == 0,
            r matches Some(c) ==> exists|k: int|
                0 <= k < (self.live@ + self.extra@).len() && (self.live@ + self.extra@)[k] == *c
                    && (forall|j: int| 0 <= j < (self.live@ + self.extra@).len() ==> (#[trigger] (
                    self.live@ + self.extra@)[j]).spec_fail_count() <= c.spec_fail_count())
                    && (forall|j: int| k < j < (self.live@ + self.extra@).len() ==> (#[trigger] (
                    self.live@ + self.extra@)[j]).spec_fail_count() < c.spec_fail_count()),
    {
        let ghost all = self.live@ + self.extra@;
        let n = self.live.len();
        let m = self.extra.len();
        let mut best: Option<&Contact> = None;
        let ghost mut bk: int = 0;
        let mut i: usize = 0;
        while i < n
            invariant
                all == self.live@ + self.extra@,
                n == self.live@.len(),
                i <= n,
                best is None <==> i == 0,
                best matches Some(c) ==> 0 <= bk < i && all[bk] == *c
                    && (forall|j: int| 0 <= j < i ==> (#[trigger] all[j]).spec_fail_count() <= c.spec_fail_count())
                    && (forall|j: int| bk < j < i ==> (#[trigger] all[j]).spec_fail_count() < c.spec_fail_count()),
            decreases n - i,
        {
            let c: &Contact = &self.live[i];
            assert(all[i as int] == *c);
            let take = match best {
                None => true,
                Some(b) => c.fail_count() >= b.fail_count(),
            };
            if take {
                best = Some(c);
                proof {
                    bk = i as int;
                }
            }
            i = i + 1;
        }
        let mut e: usize = 0;
        while e < m
            invariant
                all == self.live@ + self.extra@,
                n == self.live@.len(),
                m == self.extra@.len(),
                e <= m,
                best is None <==> n + e == 0,
                best matches Some(c) ==> 0 <= bk < n + e && all[bk] == *c
                    && (forall|j: int| 0 <= j < n + e ==> (#[trigger] all[j]).spec_fail_count() <= c.spec_fail_count())
                    && (forall|j: int| bk < j < n + e ==> (#[trigger] all[j]).spec_fail_count() < c.spec_fail_count()),
            decreases m - e,
        {
            let c: &Contact = &self.extra[e];
            assert(all[n + e] == *c);
            let take = match best {
                None => true,
                Some(b) => c.fail_count() >= b.fail_count(),
            };
            if take {
                best = Some(c);
                proof {
                    bk = n + e;
                }
            }
            e = e + 1;
        }
        best
    }

    pub fn is_full(&self) -> (r: bool)
        ensures
            r == (self.live@.len() >= 8),
    {
        self.live.len() >= Self::MAX_LEN
    }

    /// Moves the contacts (live and extra) whose distance from `own_id`
    /// has more than `index` leading zero bits into a new bucket, keeping
    /// the others, each list in its order.
    pub fn split(&mut self, own_id: &NodeId, index: usize) -> (r: Bucket)
        ensures
            final(self).live@ == old(self).live@.filter(stays(own_id@, index as int)),
            final(self).extra@ == old(self).extra@.filter(stays(own_id@, index as int)),
            r.live@ == old(self).live@.filter(moves(own_id@, index as int)),
            r.extra@ == old(self).extra@.filter(moves(own_id@, index as int)),
    {
        let (keep_live, move_live) = partition(&self.live, own_id, index);
        let (keep_extra, move_extra) = partition(&self.extra, own_id, index);
        self.live = keep_live;
        self.extra = keep_extra;
        Bucket { live: move_live, extra: move_extra, last_updated: now() }
    }

    /// Puts `contact` in the place of the live contact with the most
    /// timeouts, if any live contact has timed out; `RequireSplit` when
    /// none has (there is no room for it).
    pub fn replace_node(&mut self, contact: &Contact) -> (r: BucketResult)
        ensures
            final(self).extra@ == old(self).extra@,
            r == BucketResult::Success || r == BucketResult::RequireSplit,
            r == BucketResult::RequireSplit <==> forall|j: int|
                0 <= j < old(self).live@.len() ==> old(self).live@[j].spec_fail_count() == 0,
            r == BucketResult::RequireSplit ==> final(self).live@ == old(self).live@,
            r == BucketResult::Success ==> exists|j: int|
                0 <= j < old(self).live@.len() && old(self).live@[j].spec_fail_count() > 0
                    && final(self).live@ == old(self).live@.update(j, *contact),
    {
        let mut worst: usize = 0;
        let mut worst_count: u8 = 0;
        let mut i: usize = 0;
        while i < self.live.len()
            invariant
                i <= self.live@.len(),
                worst < self.live@.len() || worst_count == 0,
                worst_count > 0 ==> self.live@[worst as int].spec_fail_count() == worst_count,
                forall|j: int| 0 <= j < i ==> self.live@[j].spec_fail_count() <= worst_count,
            decreases self.live@.len() - i,
        {
            let c = self.live[i].fail_count();
            if c > worst_count {
                worst = i;
                worst_count = c;
            }
            i = i + 1;
        }
        if worst_count == 0 {
            return BucketResult::RequireSplit;
        }
        self.live.set(worst, *contact);
        BucketResult::Success
    }
}

/// Splits `v` into the contacts that stay and the ones that move, in order.
fn partition(v: &Vec<Contact>, own_id: &NodeId, index: usize) -> (r: (Vec<Contact>, Vec<Contact>))
    ensures
        r.0@ == v@.filter(stays(own_id@, index as int)),
        r.1@ == v@.filter(moves(own_id@, index as int)),
{
    let mut keep: Vec<Contact> = Vec::new();
    let mut moved: Vec<Contact> = Vec::new();
    let mut i: usize = 0;
    assert(v@.take(0) =~= Seq::<Contact>::empty());
    proof {
        reveal_with_fuel(Seq::<_>::filter, 1);
    }
    while i < v.len()
        invariant
            i <= v@.len(),
            keep@ == v@.take(i as int).filter(stays(own_id@, index as int)),
            moved@ == v@.take(i as int).filter(moves(own_id@, index as int)),
        decreases v@.len() - i,
    {
        let c = v[i];
        assert(v@.take(i + 1) =~= v@.take(i as int).push(c));
        proof {
            v@.take(i as int).lemma_filter_push(c, stays(own_id@, index as int));
            v@.take(i as int).lemma_filter_push(c, moves(own_id@, index as int));
        }
        if own_id.xlz(&c.id) > index {
            moved.push(c);
        } else {
            keep.push(c);
        }
        i = i + 1;
    }
    assert(v@.take(v@.len() as int) =~= v@);
    (keep, moved)
}

impl Default for Bucket {
    fn default() -> (r: Self)
        ensures
            r.live@.len() == 0,
            r.extra@.len() == 0,
    {
        Self::new()
    }
}

} // verus!
