//! A write cache of downloaded pieces. Pieces wait in index order; a flush
//! hands them out as writes, each run of consecutive indices joined into
//! one write at the offset of its first piece.
use vstd::prelude::*;

verus! {

/// A downloaded and verified piece.
#[derive(Debug)]
pub struct Piece {
    pub index: u32,
    pub buf: Vec<u8>,
}

impl View for Piece {
    type V = (u32, Seq<u8>);

    open spec fn view(&self) -> (u32, Seq<u8>) {
        (self.index, self.buf@)
    }
}

/// A write to make: `data` at byte `offset` of the file.
#[derive(Debug)]
pub struct Write {
    pub offset: u64,
    pub data: Vec<u8>,
}

impl View for Write {
    type V = (u64, Seq<u8>);

    open spec fn view(&self) -> (u64, Seq<u8>) {
        (self.offset, self.data@)
    }
}

/// `s` with `x` placed after every piece of an index not above its own and
/// before the others.
pub open spec fn insert_by_index(s: Seq<(u32, Seq<u8>)>, x: (u32, Seq<u8>)) -> Seq<(u32, Seq<u8>)>
    decreases s.len(),
{
    if s.len() == 0 {
        seq![x]
    } else if s.last().0 > x.0 {
        insert_by_index(s.drop_last(), x).push(s.last())
    } else {
        s.push(x)
    }
}

/// Pieces in index order, joined into runs: a piece whose index follows
/// that of the piece before it is appended to that piece's run.
pub open spec fn runs(s: Seq<(u32, Seq<u8>)>) -> Seq<(u32, Seq<u8>)>
    decreases s.len(),
{
    if s.len() == 0 {
        Seq::empty()
    } else {
        let r = runs(s.drop_last());
        let p = s.last();
        if s.len() >= 2 && p.0 == s[s.len() - 2].0 + 1 && r.len() > 0 {
            r.update(r.len() - 1, (r.last().0, r.last().1 + p.1))
        } else {
            r.push(p)
        }
    }
}

/// The writes of the runs of `s`, each at the offset of its first piece.
pub open spec fn writes_of(s: Seq<(u32, Seq<u8>)>, piece_len: nat) -> Seq<(u64, Seq<u8>)> {
    runs(s).map_values(|r: (u32, Seq<u8>)| ((piece_len * r.0) as u64, r.1))
}

/// All the bytes of a list of buffers, one after the other.
pub open spec fn concat(s: Seq<Seq<u8>>) -> Seq<u8>
    decreases s.len(),
{
    if s.len() == 0 {
        Seq::empty()
    } else {
        concat(s.drop_last()) + s.last()
    }
}

/// Whether every index of `s` is one of a piece whose offset fits in 64 bits.
pub open spec fn offsets_fit(s: Seq<(u32, Seq<u8>)>, piece_len: nat) -> bool {
    forall|i: int| 0 <= i < s.len() ==> #[trigger] s[i].0 * piece_len <= u64::MAX
}

/// The pieces waiting to be written.
pub struct Cache {
    pieces: Vec<Piece>,
    piece_len: usize,
    limit: usize,
}

proof fn lemma_runs_len(s: Seq<(u32, Seq<u8>)>)
    ensures
        s.len() > 0 ==> runs(s).len() > 0,
        runs(s).len() <= s.len(),
    decreases s.len(),
{
    if s.len() > 0 {
        lemma_runs_len(s.drop_last());
    }
}

proof fn lemma_insert_at(s: Seq<(u32, Seq<u8>)>, x: (u32, Seq<u8>), p: int)
    requires
        0 <= p <= s.len(),
        forall|j: int| p <= j < s.len() ==> #[trigger] s[j].0 > x.0,
        p > 0 ==> s[p - 1].0 <= x.0,
    ensures
        insert_by_index(s, x) == s.insert(p, x),
    decreases s.len(),
{
    if s.len() == 0 {
        assert(s.insert(p, x) =~= seq![x]);
    } else if p == s.len() {
        assert(s.insert(p, x) =~= s.push(x));
    } else {
        let t = s.drop_last();
        assert(s.last().0 > x.0);
        assert forall|j: int| p <= j < t.len() implies #[trigger] t[j].0 > x.0 by {
            assert(t[j] == s[j]);
        }
        lemma_insert_at(t, x, p);
        assert(t.insert(p, x).push(s.last()) =~= s.insert(p, x));
    }
}

proof fn lemma_concat_push(s: Seq<Seq<u8>>, x: Seq<u8>)
    ensures
        concat(s.push(x)) == concat(s) + x,
{
    assert(s.push(x).drop_last() =~= s);
}

proof fn lemma_concat_update_last(s: Seq<Seq<u8>>, x: Seq<u8>)
    requires
        s.len() > 0,
    ensures
        concat(s.update(s.len() - 1, s.last() + x)) == concat(s) + x,
{
    let u = s.update(s.len() - 1, s.last() + x);
    assert(u.drop_last() =~= s.drop_last());
    assert(concat(s.drop_last()) + (s.last() + x) =~= concat(s.drop_last()) + s.last() + x);
}

/// Flushing writes every cached byte once, in index order: the bytes of
/// the writes, one after the other, are those of the cached pieces.
pub proof fn law_flush_writes_all(s: Seq<(u32, Seq<u8>)>)
    ensures
        concat(runs(s).map_values(|r: (u32, Seq<u8>)| r.1)) == concat(s.map_values(|p: (u32, Seq<u8>)| p.1)),
    decreases s.len(),
{
    if s.len() > 0 {
        let t = s.drop_last();
        law_flush_writes_all(t);
        lemma_runs_len(t);
        let r = runs(t);
        let p = s.last();
        assert(s.map_values(|p: (u32, Seq<u8>)| p.1) =~= t.map_values(|p: (u32, Seq<u8>)| p.1).push(p.1));
        lemma_concat_push(t.map_values(|p: (u32, Seq<u8>)| p.1), p.1);
        if s.len() >= 2 && p.0 == s[s.len() - 2].0 + 1 && r.len() > 0 {
            let rb = r.map_values(|q: (u32, Seq<u8>)| q.1);
            assert(runs(s).map_values(|q: (u32, Seq<u8>)| q.1) =~= rb.update(rb.len() - 1, rb.last() + p.1));
            lemma_concat_update_last(rb, p.1);
        } else {
            assert(runs(s).map_values(|q: (u32, Seq<u8>)| q.1) =~= r.map_values(|q: (u32, Seq<u8>)| q.1).push(p.1));
            lemma_concat_push(r.map_values(|q: (u32, Seq<u8>)| q.1), p.1);
        }
    }
}

/// Pieces `a` up to `b` (excluded) of `s` have consecutive indices, and
/// `run` starts at the index of piece `a` and holds their bytes in order.
pub open spec fn run_of(s: Seq<(u32, Seq<u8>)>, a: int, b: int, run: (u32, Seq<u8>)) -> bool {
    &&& 0 <= a < b <= s.len()
    &&& forall|k: int| a <= k < b - 1 ==> #[trigger] s[k + 1].0 == s[k].0 + 1
    &&& run.0 == s[a].0
    &&& run.1 == concat(s.subrange(a, b).map_values(|p: (u32, Seq<u8>)| p.1))
}

/// `run` is the run of some pieces of `s` of consecutive indices.
pub open spec fn is_run(s: Seq<(u32, Seq<u8>)>, run: (u32, Seq<u8>)) -> bool {
    exists|a: int, b: int| #[trigger] run_of(s, a, b, run)
}

/// How many times an index of `s` does not follow the one before it.
pub open spec fn breaks(s: Seq<(u32, Seq<u8>)>) -> int
    decreases s.len(),
{
    if s.len() <= 1 {
        0
    } else {
        breaks(s.drop_last()) + if s.last().0 == s[s.len() - 2].0 + 1 { 0int } else { 1int }
    }
}

proof fn lemma_run_of_prefix(s: Seq<(u32, Seq<u8>)>, a: int, b: int, run: (u32, Seq<u8>))
    requires
        s.len() > 0,
        run_of(s.drop_last(), a, b, run),
    ensures
        run_of(s, a, b, run),
{
    let t = s.drop_last();
    assert(s.subrange(a, b) =~= t.subrange(a, b));
    assert forall|k: int| a <= k < b - 1 implies #[trigger] s[k + 1].0 == s[k].0 + 1 by {
        assert(s[k + 1] == t[k + 1] && s[k] == t[k]);
    }
}

/// Each write of a flush carries a run of pieces of consecutive indices,
/// at the place of its first piece: so every piece's bytes land where its
/// index puts them (with pieces of `piece_len` bytes, piece `k` of a run
/// starting at piece `a` sits `(index of k - index of a) * piece_len`
/// bytes into the write). The runs are as few as the indices allow: one
/// more than the places where an index does not follow the one before.
pub proof fn law_runs_consecutive(s: Seq<(u32, Seq<u8>)>)
    ensures
        forall|q: int| 0 <= q < runs(s).len() ==> is_run(s, #[trigger] runs(s)[q]),
        s.len() > 0 ==> exists|a: int| #[trigger] run_of(s, a, s.len() as int, runs(s).last()),
        s.len() > 0 ==> runs(s).len() == 1 + breaks(s),
    decreases s.len(),
{
    if s.len() > 0 {
        let t = s.drop_last();
        law_runs_consecutive(t);
        lemma_runs_len(t);
        let r = runs(t);
        let p = s.last();
        let n = s.len() as int;
        assert forall|q: int| 0 <= q < r.len() - 1 implies is_run(s, #[trigger] r[q]) by {
            let (a, b) = choose|a: int, b: int| #[trigger] run_of(t, a, b, r[q]);
            lemma_run_of_prefix(s, a, b, r[q]);
            assert(is_run(s, r[q]));
        }
        if s.len() >= 2 && p.0 == s[s.len() - 2].0 + 1 && r.len() > 0 {
            let a = choose|a: int| #[trigger] run_of(t, a, t.len() as int, r.last());
            let nr = (r.last().0, r.last().1 + p.1);
            assert(runs(s) == r.update(r.len() - 1, nr));
            assert(s.subrange(a, n).map_values(|p: (u32, Seq<u8>)| p.1) =~= t.subrange(a, n - 1).map_values(
                |p: (u32, Seq<u8>)| p.1,
            ).push(p.1));
            lemma_concat_push(t.subrange(a, n - 1).map_values(|p: (u32, Seq<u8>)| p.1), p.1);
            assert forall|k: int| a <= k < n - 1 implies #[trigger] s[k + 1].0 == s[k].0 + 1 by {
                if k < n - 2 {
                    assert(s[k + 1] == t[k + 1] && s[k] == t[k]);
                }
            }
            assert(s[a] == t[a]);
            assert(run_of(s, a, n, nr));
            assert forall|q: int| 0 <= q < runs(s).len() implies is_run(s, #[trigger] runs(s)[q]) by {
                if q < r.len() - 1 {
                    assert(runs(s)[q] == r[q]);
                } else {
                    assert(runs(s)[q] == nr);
                    assert(run_of(s, a, n, runs(s)[q]));
                    assert(is_run(s, runs(s)[q]));
                }
            }
            assert(run_of(s, a, n, runs(s).last()));
        } else {
            assert(runs(s) == r.push(p));
            if r.len() > 0 {
                let (a, b) = choose|a: int, b: int| #[trigger] run_of(t, a, b, r[r.len() - 1]);
                lemma_run_of_prefix(s, a, b, r[r.len() - 1]);
            }
            assert(s.subrange(n - 1, n).map_values(|p: (u32, Seq<u8>)| p.1) =~= Seq::<Seq<u8>>::empty().push(p.1));
            lemma_concat_push(Seq::<Seq<u8>>::empty(), p.1);
            assert(Seq::<u8>::empty() + p.1 =~= p.1);
            assert(run_of(s, n - 1, n, p));
            assert forall|q: int| 0 <= q < runs(s).len() implies is_run(s, #[trigger] runs(s)[q]) by {
                if q < r.len() {
                    assert(runs(s)[q] == r[q]);
                } else {
                    assert(run_of(s, n - 1, n, runs(s)[q]));
                    assert(is_run(s, runs(s)[q]));
                }
            }
            assert(run_of(s, n - 1, n, runs(s).last()));
        }
    } else {
        assert(runs(s).len() == 0);
    }
}

/// A cache keeps its pieces in index order: placing a piece in pieces
/// that are in index order leaves them in index order, one more.
pub proof fn law_pieces_in_order(s: Seq<(u32, Seq<u8>)>, x: (u32, Seq<u8>))
    requires
        forall|i: int, j: int| 0 <= i < j < s.len() ==> s[i].0 <= s[j].0,
    ensures
        forall|i: int, j: int|
            0 <= i < j < insert_by_index(s, x).len() ==> insert_by_index(s, x)[i].0 <= insert_by_index(s, x)[j].0,
        insert_by_index(s, x).len() == s.len() + 1,
    decreases s.len(),
{
    if s.len() > 0 && s.last().0 > x.0 {
        let t = s.drop_last();
        law_pieces_in_order(t, x);
        lemma_insert_bound(t, x, s.last().0);
        let u = insert_by_index(t, x);
        assert forall|i: int, j: int| 0 <= i < j < u.push(s.last()).len() implies u.push(s.last())[i].0 <= u.push(
            s.last(),
        )[j].0 by {
            if j < u.len() {
                assert(u.push(s.last())[i] == u[i] && u.push(s.last())[j] == u[j]);
            }
        }
    }
}

/// Every piece after placing `x` has an index at most `bound` when `x`
/// and the pieces already had.
proof fn lemma_insert_bound(s: Seq<(u32, Seq<u8>)>, x: (u32, Seq<u8>), bound: u32)
    requires
        forall|i: int| 0 <= i < s.len() ==> #[trigger] s[i].0 <= bound,
        x.0 <= bound,
    ensures
        forall|i: int| 0 <= i < insert_by_index(s, x).len() ==> #[trigger] insert_by_index(s, x)[i].0 <= bound,
    decreases s.len(),
{
    let u = insert_by_index(s, x);
    if s.len() > 0 && s.last().0 > x.0 {
        let t = s.drop_last();
        lemma_insert_bound(t, x, bound);
        let v = insert_by_index(t, x);
        assert forall|i: int| 0 <= i < u.len() implies #[trigger] u[i].0 <= bound by {
            if i < v.len() {
                assert(u[i] == v[i]);
            } else {
                assert(u[i] == s[s.len() - 1]);
            }
        }
    } else if s.len() > 0 {
        assert forall|i: int| 0 <= i < u.len() implies #[trigger] u[i].0 <= bound by {
            if i < s.len() {
                assert(u[i] == s[i]);
            }
        }
    }
}

impl Cache {
    /// The pieces waiting, in index order.
    pub closed spec fn spec_pieces(&self) -> Seq<(u32, Seq<u8>)> {
        self.pieces@.map_values(|p: Piece| p@)
    }

    pub closed spec fn spec_piece_len(&self) -> nat {
        self.piece_len as nat
    }

    pub closed spec fn spec_limit(&self) -> nat {
        self.limit as nat
    }

    /// Every waiting piece has an offset that fits in 64 bits.
    pub open spec fn wf(&self) -> bool {
        offsets_fit(self.spec_pieces(), self.spec_piece_len())
    }

    /// An empty cache that flushes once it holds `limit` pieces of
    /// `piece_len` bytes.
    pub fn new(limit: usize, piece_len: usize) -> (r: Self)
        ensures
            r.wf(),
            r.spec_pieces() == Seq::<(u32, Seq<u8>)>::empty(),
            r.spec_limit() == limit,
            r.spec_piece_len() == piece_len,
    {
        let r = Cache { pieces: Vec::new(), piece_len, limit };
        assert(r.spec_pieces() =~= Seq::<(u32, Seq<u8>)>::empty());
        r
    }

    /// Adds a piece; once the cache holds its limit it flushes, and the
    /// writes of that flush are returned (none otherwise).
    pub fn push(&mut self, piece: Piece) -> (r: Vec<Write>)
        requires
            old(self).wf(),
            piece.index * old(self).spec_piece_len() <= u64::MAX,
        ensures
            final(self).wf(),
            final(self).spec_piece_len() == old(self).spec_piece_len(),
            final(self).spec_limit() == old(self).spec_limit(),
            ({
                let s = insert_by_index(old(self).spec_pieces(), piece@);
                if s.len() >= old(self).spec_limit() {
                    &&& r@.map_values(|w: Write| w@) == writes_of(s, old(self).spec_piece_len())
                    &&& final(self).spec_pieces() == Seq::<(u32, Seq<u8>)>::empty()
                } else {
                    &&& r@.len() == 0
                    &&& final(self).spec_pieces() == s
                }
            }),
    {
        let ghost x = piece@;
        let ghost s0 = self.spec_pieces();
        let idx = piece.index;
        let mut p: usize = self.pieces.len();
        while p > 0 && self.pieces[p - 1].index > idx
            invariant
                p <= self.pieces@.len(),
                s0 == self.pieces@.map_values(|q: Piece| q@),
                forall|j: int| p <= j < self.pieces@.len() ==> #[trigger] self.pieces@[j].index > idx,
            decreases p,
        {
            p = p - 1;
        }
        proof {
            assert forall|j: int| p <= j < s0.len() implies #[trigger] s0[j].0 > x.0 by {
                assert(s0[j] == self.pieces@[j]@);
            }
            if p > 0 {
                assert(s0[p - 1] == self.pieces@[p - 1]@);
            }
            lemma_insert_at(s0, x, p as int);
        }
        self.pieces.insert(p, piece);
        proof {
            assert(self.spec_pieces() =~= s0.insert(p as int, x));
            assert forall|i: int| 0 <= i < self.spec_pieces().len() implies #[trigger] self.spec_pieces()[i].0
                * self.spec_piece_len() <= u64::MAX by {
                if i < p {
                    assert(self.spec_pieces()[i] == s0[i]);
                } else if i > p {
                    assert(self.spec_pieces()[i] == s0[i - 1]);
                }
            }
        }
        if self.pieces.len() >= self.limit {
            self.flush()
        } else {
            Vec::new()
        }
    }

    /// Empties the cache, giving its writes: the pieces in index order,
    /// each run of consecutive indices as one write at the offset of its
    /// first piece.
    pub fn flush(&mut self) -> (r: Vec<Write>)
        requires
            old(self).wf(),
        ensures
            final(self).wf(),
            r@.map_values(|w: Write| w@) == writes_of(old(self).spec_pieces(), old(self).spec_piece_len()),
            final(self).spec_pieces() == Seq::<(u32, Seq<u8>)>::empty(),
            final(self).spec_piece_len() == old(self).spec_piece_len(),
            final(self).spec_limit() == old(self).spec_limit(),
    {
        let ghost s = self.spec_pieces();
        let ghost pl = self.piece_len as nat;
        let mut pieces: Vec<Piece> = Vec::new();
        std::mem::swap(&mut pieces, &mut self.pieces);
        assert(pieces@.map_values(|q: Piece| q@) == s);
        let mut out: Vec<Write> = Vec::new();
        let mut prev: u32 = 0;
        let n = pieces.len();
        let mut i: usize = 0;
        let mut rest = pieces;
        while i < n
            invariant
                n == s.len(),
                i <= n,
                pl == self.piece_len,
                offsets_fit(s, pl),
                rest@.map_values(|q: Piece| q@) == s.skip(i as int),
                out@.map_values(|w: Write| w@) == writes_of(s.take(i as int), pl),
                i > 0 ==> prev == s[i - 1].0,
                self.pieces@.len() == 0,
            decreases n - i,
        {
            let ghost before_rest = rest@;
            assert(rest@.map_values(|q: Piece| q@).len() == n - i);
            let piece = rest.remove(0);
            proof {
                assert(before_rest.map_values(|q: Piece| q@)[0] == s.skip(i as int)[0]);
                assert(piece@ == s[i as int]);
                assert(rest@ == before_rest.remove(0));
                let rm = rest@.map_values(|q: Piece| q@);
                let bm = before_rest.map_values(|q: Piece| q@);
                assert forall|j: int| 0 <= j < rest@.len() implies #[trigger] rm[j] == s.skip(i as int + 1)[j] by {
                    assert(rest@[j] == before_rest[j + 1]);
                    assert(bm[j + 1] == s.skip(i as int)[j + 1]);
                }
                assert(rest@.map_values(|q: Piece| q@) =~= s.skip(i as int + 1));
                let t = s.take(i as int + 1);
                assert(t.drop_last() =~= s.take(i as int));
                lemma_runs_len(s.take(i as int));
            }
            let joins = i > 0 && (piece.index as u64) == (prev as u64) + 1 && out.len() > 0;
            let ghost before = out@.map_values(|w: Write| w@);
            if joins {
                let ghost old_out = out@;
                let mut last = out.pop().unwrap();
                let ghost old_last = last@;
                let ghost pb = piece.buf@;
                let mut data = piece.buf;
                last.data.append(&mut data);
                out.push(last);
                proof {
                    let t = s.take(i as int + 1);
                    let r = runs(s.take(i as int));
                    assert(t[t.len() - 2] == s[i - 1]);
                    assert(t.last() == s[i as int]);
                    assert(runs(t) == r.update(r.len() - 1, (r.last().0, r.last().1 + piece@.1)));
                    assert(old_last == before[before.len() - 1]);
                    assert(before.len() == r.len());
                    assert(before[before.len() - 1] == ((pl * r.last().0) as u64, r.last().1));
                    assert(pb == s[i as int].1);
                    assert(last@ == (old_last.0, old_last.1 + pb));
                    assert(out@ == old_out.drop_last().push(last));
                    assert(out@.map_values(|w: Write| w@) =~= before.drop_last().push(last@));
                    assert(out@.map_values(|w: Write| w@) =~= writes_of(t, pl));
                }
            } else {
                proof {
                    assert(s[i as int].0 * pl <= u64::MAX);
                    let a = piece.index as int;
                    let b = self.piece_len as int;
                    assert(b * a == a * b) by (nonlinear_arith);
                }
                let offset = (self.piece_len as u64) * (piece.index as u64);
                let ghost w = (offset, piece.buf@);
                out.push(Write { offset, data: piece.buf });
                proof {
                    let t = s.take(i as int + 1);
                    let r = runs(s.take(i as int));
                    if i > 0 {
                        assert(t[t.len() - 2] == s[i - 1]);
                    }
                    assert(before.len() == r.len());
                    assert(t.last() == s[i as int]);
                    assert(runs(t) == r.push(t.last()));
                    assert(w == ((pl * t.last().0) as u64, t.last().1));
                    assert(out@.map_values(|w: Write| w@) =~= before.push(w));
                    assert(out@.map_values(|w: Write| w@) =~= writes_of(t, pl));
                }
            }
            prev = piece.index;
            i = i + 1;
        }
        assert(s.take(n as int) =~= s);
        proof {
            assert(self.spec_pieces() =~= Seq::<(u32, Seq<u8>)>::empty());
        }
        out
    }

    /// How many pieces wait.
    pub fn len(&self) -> (r: usize)
        ensures
            r == self.spec_pieces().len(),
    {
        self.pieces.len()
    }

    /// The byte offset of piece `index`.
    pub fn index_to_offset(&self, index: u32) -> (r: u64)
        requires
            index * self.spec_piece_len() <= u64::MAX,
        ensures
            r == index * self.spec_piece_len(),
    {
        proof {
            vstd::arithmetic::mul::lemma_mul_is_commutative(index as int, self.piece_len as int);
        }
        (self.piece_len as u64) * (index as u64)
    }
}

} // verus!
