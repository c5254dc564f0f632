//! The decisions of a download from one peer: which pieces are in
//! progress, which blocks to request next, how many requests to keep in
//! flight, and what a received block does.
use crate::avg::{add_sample_fits, add_sample_spec, mean_of, AvgState, SlidingAvg};
use vstd::prelude::*;

verus! {

/// The most block requests kept in flight.
pub const MAX_REQUESTS: u32 = 500;
/// Below this many requests in flight, more are made.
pub const MIN_REQUESTS: u32 = 2;
/// The largest block requested at once.
pub const MAX_BLOCK_SIZE: u32 = 0x4000;
/// The largest piece a download takes.
pub const MAX_PIECE_LEN: u32 = 0x7fff_ffff;

/// A piece to download: its index and length.
#[derive(Debug, Clone, Copy, PartialEq, Eq, Structural)]
pub struct PieceInfo {
    pub index: u32,
    pub len: u32,
}

/// A piece being downloaded: its buffer, the bytes received and the bytes
/// requested.
#[derive(Debug)]
pub struct PieceInProgress {
    pub piece: PieceInfo,
    pub buf: Vec<u8>,
    pub downloaded: u32,
    pub requested: u32,
}

/// The model of a piece being downloaded.
pub struct PipView {
    pub piece: PieceInfo,
    pub buf: Seq<u8>,
    pub downloaded: u32,
    pub requested: u32,
}

impl View for PieceInProgress {
    type V = PipView;

    open spec fn view(&self) -> PipView {
        PipView { piece: self.piece, buf: self.buf@, downloaded: self.downloaded, requested: self.requested }
    }
}

/// A request for `len` bytes from byte `begin` of piece `index`.
#[derive(Debug, Clone, Copy, PartialEq, Eq, Structural)]
pub struct BlockRequest {
    pub index: u32,
    pub begin: u32,
    pub len: u32,
}

/// Whether a block of `n` bytes at `begin` lies within a buffer of `len`.
pub open spec fn block_fits(len: nat, begin: u32, n: nat) -> bool {
    begin <= len && n <= len - begin
}

impl PieceInProgress {
    /// A piece with nothing received or requested yet.
    pub fn new(piece: PieceInfo) -> (r: Self)
        ensures
            r@.piece == piece,
            r@.buf == Seq::new(piece.len as nat, |i: int| 0u8),
            r@.downloaded == 0,
            r@.requested == 0,
    {
        let n = piece.len as usize;
        let mut buf: Vec<u8> = Vec::new();
        while buf.len() < n
            invariant
                buf@.len() <= n,
                forall|j: int| 0 <= j < buf@.len() ==> buf@[j] == 0u8,
            decreases n - buf@.len(),
        {
            buf.push(0);
        }
        assert(buf@ =~= Seq::new(piece.len as nat, |i: int| 0u8));
        PieceInProgress { piece, buf, downloaded: 0, requested: 0 }
    }

    /// Copies a received block into the buffer at byte `begin`; `false`
    /// (and nothing copied) when it does not fit.
    pub fn write_block(&mut self, begin: u32, data: &[u8]) -> (r: bool)
        ensures
            r == block_fits(old(self).buf@.len(), begin, data@.len()),
            r ==> final(self).buf@ == old(self).buf@.subrange(0, begin as int) + data@ + old(self).buf@.subrange(
                begin + data@.len(),
                old(self).buf@.len() as int,
            ),
            !r ==> final(self).buf@ == old(self).buf@,
            final(self).piece == old(self).piece,
            final(self).downloaded == old(self).downloaded,
            final(self).requested == old(self).requested,
    {
        let len = self.buf.len();
        let b = begin as usize;
        if b > len || data.len() > len - b {
            return false;
        }
        let ghost old_buf = self.buf@;
        let ghost piece0 = self.piece;
        let ghost down0 = self.downloaded;
        let ghost req0 = self.requested;
        let mut i: usize = 0;
        while i < data.len()
            invariant
                self.piece == piece0,
                self.downloaded == down0,
                self.requested == req0,
                b + data@.len() <= len,
                len == self.buf@.len(),
                i <= data@.len(),
                forall|j: int| 0 <= j < b ==> self.buf@[j] == old_buf[j],
                forall|j: int| b + data@.len() <= j < len ==> self.buf@[j] == old_buf[j],
                forall|j: int| b <= j < b + i ==> #[trigger] self.buf@[j] == data@[j - b],
                forall|j: int| b + i <= j < b + data@.len() ==> #[trigger] self.buf@[j] == old_buf[j],
            decreases data@.len() - i,
        {
            self.buf.set(b + i, data[i]);
            i = i + 1;
        }
        assert(self.buf@ =~= old_buf.subrange(0, begin as int) + data@ + old_buf.subrange(
            begin + data@.len(),
            old_buf.len() as int,
        ));
        true
    }
}

/// What a received block did.
#[derive(Debug)]
pub enum BlockOutcome {
    /// No piece of that index is in progress.
    NotRequested,
    /// The piece is still in progress; `written` when the block fitted.
    Pending { written: bool },
    /// The piece is complete and left the download; `written` when the
    /// last block fitted.
    Complete { piece: PieceInProgress, written: bool },
}

/// The requests for one piece with room for `budget` more in flight:
/// blocks of at most `MAX_BLOCK_SIZE` from the first byte not requested.
pub open spec fn piece_requests(index: u32, len: u32, requested: u32, budget: nat) -> Seq<BlockRequest>
    decreases len - requested,
{
    if budget == 0 || requested >= len {
        Seq::empty()
    } else {
        let n = if len - requested < MAX_BLOCK_SIZE {
            (len - requested) as u32
        } else {
            MAX_BLOCK_SIZE
        };
        seq![BlockRequest { index, begin: requested, len: n }].add(
            piece_requests(index, len, (requested + n) as u32, (budget - 1) as nat),
        )
    }
}

/// The bytes of a piece requested once its requests went out.
pub open spec fn requested_after(len: u32, requested: u32, budget: nat) -> u32
    decreases len - requested,
{
    if budget == 0 || requested >= len {
        requested
    } else {
        let n = if len - requested < MAX_BLOCK_SIZE {
            (len - requested) as u32
        } else {
            MAX_BLOCK_SIZE
        };
        requested_after(len, (requested + n) as u32, (budget - 1) as nat)
    }
}

/// The requests for the pieces in order, with room for `budget` more in
/// flight.
pub open spec fn all_requests(ps: Seq<PipView>, budget: nat) -> Seq<BlockRequest>
    decreases ps.len(),
{
    if ps.len() == 0 {
        Seq::empty()
    } else {
        let before = all_requests(ps.drop_last(), budget);
        let p = ps.last();
        before + piece_requests(p.piece.index, p.piece.len, p.requested, (budget - before.len()) as nat)
    }
}

/// The pieces once their requests went out.
pub open spec fn pieces_after(ps: Seq<PipView>, budget: nat) -> Seq<PipView>
    decreases ps.len(),
{
    if ps.len() == 0 {
        Seq::empty()
    } else {
        let before = all_requests(ps.drop_last(), budget);
        let p = ps.last();
        pieces_after(ps.drop_last(), budget).push(
            PipView { requested: requested_after(p.piece.len, p.requested, (budget - before.len()) as nat), ..p },
        )
    }
}

/// The position of the piece of this index, or -1.
pub open spec fn find_piece(ps: Seq<PipView>, index: u32) -> int
    decreases ps.len(),
{
    if ps.len() == 0 {
        -1
    } else if ps.last().piece.index == index {
        ps.len() - 1
    } else {
        find_piece(ps.drop_last(), index)
    }
}

/// The download rate sample of `blocks` blocks in `millis` milliseconds,
/// in blocks a second, as an `i32`.
pub open spec fn rate_sample(blocks: u32, millis: u128) -> i32 {
    ((1000 * blocks) / (millis as int)) as i32
}

/// Whether the rate sample of the blocks done since the last requests
/// went out, `millis` milliseconds ago, can be taken into the average.
pub open spec fn watermark_fits(rate: AvgState, last: u32, backlog: u32, millis: u128) -> bool {
    millis > 0 ==> add_sample_fits(rate, rate_sample((last - backlog) as u32, millis) as int)
}

/// The rate average once the blocks done since the last requests went out,
/// `millis` milliseconds ago, were taken in (unchanged for no time).
pub open spec fn watermark_rate(rate: AvgState, last: u32, backlog: u32, millis: u128) -> AvgState {
    if millis == 0 {
        rate
    } else {
        add_sample_spec(rate, rate_sample((last - backlog) as u32, millis) as int)
    }
}

/// The requests allowed in flight after the rate was updated: the mean
/// rate in blocks a second, at most `MAX_REQUESTS`, when it is above
/// `MIN_REQUESTS`; else as before.
pub open spec fn watermark_max(rate: AvgState, max: u32, last: u32, backlog: u32, millis: u128) -> u32 {
    if millis == 0 {
        max
    } else {
        let m = mean_of(watermark_rate(rate, last, backlog, millis)) as u32;
        if m > MIN_REQUESTS {
            if m < MAX_REQUESTS {
                m
            } else {
                MAX_REQUESTS
            }
        } else {
            max
        }
    }
}

/// The room for requests: the requests allowed in flight beyond those in
/// flight.
pub open spec fn room(max: u32, backlog: u32) -> nat {
    if max > backlog {
        (max - backlog) as nat
    } else {
        0
    }
}

/// A piece with its buffer replaced by `data` at `begin` when it fits,
/// and the bytes counted as received.
pub open spec fn after_block(p: PipView, begin: u32, data: Seq<u8>) -> PipView {
    if block_fits(p.buf.len(), begin, data.len()) {
        PipView {
            buf: p.buf.subrange(0, begin as int) + data + p.buf.subrange(begin + data.len(), p.buf.len() as int),
            downloaded: (p.downloaded + data.len()) as u32,
            ..p
        }
    } else {
        p
    }
}

proof fn lemma_all_requests(ps: Seq<PipView>, budget: nat)
    requires
        forall|i: int| 0 <= i < ps.len() ==> (#[trigger] ps[i]).requested <= ps[i].piece.len,
    ensures
        all_requests(ps, budget).len() <= budget,
        pieces_after(ps, budget).len() == ps.len(),
        forall|i: int|
            0 <= i < ps.len() ==> {
                let q = #[trigger] pieces_after(ps, budget)[i];
                &&& q.piece == ps[i].piece
                &&& q.buf == ps[i].buf
                &&& q.downloaded == ps[i].downloaded
                &&& ps[i].requested <= q.requested <= q.piece.len
            },
    decreases ps.len(),
{
    if ps.len() > 0 {
        let t = ps.drop_last();
        assert forall|i: int| 0 <= i < t.len() implies (#[trigger] t[i]).requested <= t[i].piece.len by {
            assert(t[i] == ps[i]);
        }
        lemma_all_requests(t, budget);
        let before = all_requests(t, budget);
        let p = ps.last();
        assert(p == ps[ps.len() - 1]);
        lemma_piece_requests(p.piece.index, p.piece.len, p.requested, (budget - before.len()) as nat);
        assert forall|i: int| 0 <= i < ps.len() implies {
            let q = #[trigger] pieces_after(ps, budget)[i];
            &&& q.piece == ps[i].piece
            &&& q.buf == ps[i].buf
            &&& q.downloaded == ps[i].downloaded
            &&& ps[i].requested <= q.requested <= q.piece.len
        } by {
            if i < t.len() {
                assert(pieces_after(ps, budget)[i] == pieces_after(t, budget)[i]);
                assert(t[i] == ps[i]);
            }
        }
    }
}

/// Filling the backlog never puts more requests in flight than allowed:
/// with `backlog` in flight and `max` allowed, the requests made bring the
/// count to at most `max` (none are made when it is already reached).
pub proof fn law_fill_within_max(ps: Seq<PipView>, max: u32, backlog: u32)
    requires
        forall|i: int| 0 <= i < ps.len() ==> (#[trigger] ps[i]).requested <= ps[i].piece.len,
    ensures
        backlog + all_requests(ps, room(max, backlog)).len() <= if backlog < max {
            max as int
        } else {
            backlog as int
        },
{
    lemma_all_requests(ps, room(max, backlog));
}

/// The state of a download from one peer.
pub struct DownloadState {
    /// The pieces in progress, at most one per index.
    pub in_progress: Vec<PieceInProgress>,
    /// Block requests in flight.
    pub backlog: u32,
    /// The most block requests kept in flight.
    pub max_requests: u32,
    /// The requests in flight after the last requests went out.
    pub last_requested_blocks: u32,
    /// The block download rate.
    pub rate: SlidingAvg,
}

proof fn lemma_piece_requests(index: u32, len: u32, requested: u32, budget: nat)
    requires
        requested <= len,
    ensures
        piece_requests(index, len, requested, budget).len() <= budget,
        requested <= requested_after(len, requested, budget) <= len,
        piece_requests(index, len, requested, budget).len() < budget ==> requested_after(len, requested, budget) == len,
    decreases len - requested,
{
    if budget > 0 && requested < len {
        let n: u32 = if len - requested < MAX_BLOCK_SIZE {
            (len - requested) as u32
        } else {
            MAX_BLOCK_SIZE
        };
        lemma_piece_requests(index, len, (requested + n) as u32, (budget - 1) as nat);
    }
}

impl DownloadState {
    /// The pieces in progress.
    pub open spec fn spec_pieces(&self) -> Seq<PipView> {
        self.in_progress@.map_values(|p: PieceInProgress| p@)
    }

    /// The invariant: at most one piece per index, each no longer than
    /// `MAX_PIECE_LEN`, with a buffer of its length, and no more received
    /// or requested than its length; the backlog within the requests last
    /// made; a rate that can take samples.
    pub open spec fn wf(&self) -> bool {
        let ps = self.spec_pieces();
        &&& forall|i: int, j: int| 0 <= i < j < ps.len() ==> ps[i].piece.index != ps[j].piece.index
        &&& forall|i: int|
            0 <= i < ps.len() ==> {
                &&& (#[trigger] ps[i]).piece.len <= MAX_PIECE_LEN
                &&& ps[i].buf.len() == ps[i].piece.len
                &&& ps[i].downloaded <= ps[i].piece.len
                &&& ps[i].requested <= ps[i].piece.len
            }
        &&& self.backlog <= self.last_requested_blocks
        &&& self.rate.wf()
    }

    /// A download with nothing in progress, five requests allowed in flight
    /// and a rate averaged over ten samples.
    pub fn new() -> (r: Self)
        ensures
            r.wf(),
            r.spec_pieces().len() == 0,
            r.backlog == 0,
            r.max_requests == 5,
            r.last_requested_blocks == 0,
            r.rate@.num_samples == 0,
            r.rate@.inverted_gain == 10,
    {
        let r = DownloadState {
            in_progress: Vec::new(),
            backlog: 0,
            max_requests: 5,
            last_requested_blocks: 0,
            rate: SlidingAvg::new(10),
        };
        assert(r.spec_pieces() =~= Seq::<PipView>::empty());
        r
    }

    /// Whether a new piece is wanted: fewer requests in flight than allowed.
    pub fn needs_piece(&self) -> (r: bool)
        ensures
            r == (self.backlog < self.max_requests),
    {
        self.backlog < self.max_requests
    }

    /// Whether the rate sample of `millis` milliseconds can be taken in
    /// (what `adjust_watermark` and `fill_backlog` need).
    pub fn watermark_fits(&self, millis: u128) -> (r: bool)
        requires
            self.wf(),
        ensures
            r == watermark_fits(self.rate@, self.last_requested_blocks, self.backlog, millis),
    {
        if millis == 0 {
            return true;
        }
        let blocks_done = self.last_requested_blocks - self.backlog;
        let bps = ((1000 * (blocks_done as u128)) / millis) as i32;
        self.rate.fits_sample(bps)
    }

    /// Whether a block of `n` bytes at `begin` of piece `index` may be
    /// taken in (what `handle_block` needs): when it fits a piece in
    /// progress, some request must be in flight.
    pub fn block_ok(&self, index: u32, begin: u32, n: usize) -> (r: bool)
        requires
            self.wf(),
        ensures
            r == (find_piece(self.spec_pieces(), index) >= 0 && block_fits(
                self.spec_pieces()[find_piece(self.spec_pieces(), index)].buf.len(),
                begin,
                n as nat,
            ) ==> self.backlog > 0),
    {
        match self.position_of(index) {
            None => true,
            Some(k) => {
                let len = self.in_progress[k].buf.len();
                let b = begin as usize;
                let fits = b <= len && n <= len - b;
                !fits || self.backlog > 0
            },
        }
    }

    /// Whether the download is over: nothing in progress and nothing in
    /// flight.
    pub fn is_done(&self) -> (r: bool)
        ensures
            r == (self.spec_pieces().len() == 0 && self.backlog == 0),
    {
        self.in_progress.len() == 0 && self.backlog == 0
    }

    /// How many pieces are in progress.
    pub fn pieces_len(&self) -> (r: usize)
        ensures
            r == self.spec_pieces().len(),
    {
        self.in_progress.len()
    }

    /// Starts a piece, replacing any in progress of the same index.
    pub fn pick_pieces(&mut self, piece: PieceInfo)
        requires
            old(self).wf(),
            piece.len <= MAX_PIECE_LEN,
        ensures
            final(self).wf(),
            final(self).backlog == old(self).backlog,
            final(self).max_requests == old(self).max_requests,
            final(self).last_requested_blocks == old(self).last_requested_blocks,
            final(self).rate@ == old(self).rate@,
            ({
                let ps = old(self).spec_pieces();
                let k = find_piece(ps, piece.index);
                let fresh = PipView { piece, buf: Seq::new(piece.len as nat, |i: int| 0u8), downloaded: 0, requested: 0 };
                &&& k < 0 ==> final(self).spec_pieces() == ps.push(fresh)
                &&& k >= 0 ==> final(self).spec_pieces() == ps.update(k, fresh)
            }),
    {
        let ghost ps = self.spec_pieces();
        let fresh = PieceInProgress::new(piece);
        match self.position_of(piece.index) {
            Some(k) => {
                self.in_progress.set(k, fresh);
                assert(self.spec_pieces() =~= ps.update(k as int, fresh@));
            },
            None => {
                self.in_progress.push(fresh);
                assert(self.spec_pieces() =~= ps.push(fresh@));
            },
        }
    }

    /// Takes into the rate the blocks done since the last requests went
    /// out, `millis` milliseconds ago, and sets the requests allowed in
    /// flight from the mean rate (nothing for no time).
    pub fn adjust_watermark(&mut self, millis: u128)
        requires
            old(self).wf(),
            watermark_fits(old(self).rate@, old(self).last_requested_blocks, old(self).backlog, millis),
        ensures
            final(self).wf(),
            final(self).rate@ == watermark_rate(old(self).rate@, old(self).last_requested_blocks, old(self).backlog, millis),
            final(self).max_requests == watermark_max(
                old(self).rate@,
                old(self).max_requests,
                old(self).last_requested_blocks,
                old(self).backlog,
                millis,
            ),
            final(self).spec_pieces() == old(self).spec_pieces(),
            final(self).backlog == old(self).backlog,
            final(self).last_requested_blocks == old(self).last_requested_blocks,
    {
        if millis == 0 {
            return;
        }
        let blocks_done = self.last_requested_blocks - self.backlog;
        let bps = ((1000 * (blocks_done as u128)) / millis) as i32;
        assert(bps == rate_sample(blocks_done, millis));
        self.rate.add_sample(bps);
        let rate = self.rate.mean() as u32;
        if rate > MIN_REQUESTS {
            self.max_requests = if rate < MAX_REQUESTS {
                rate
            } else {
                MAX_REQUESTS
            };
        }
        assert(self.spec_pieces() == old(self).spec_pieces());
    }

    /// Makes the block requests to send: none while choked or with
    /// `MIN_REQUESTS` in flight; else, once the allowed requests were
    /// adjusted (`millis` after the last requests), blocks of the pieces in
    /// order, up to the requests allowed in flight.
    pub fn fill_backlog(&mut self, choked: bool, millis: u128) -> (r: Vec<BlockRequest>)
        requires
            old(self).wf(),
            !choked && old(self).backlog < MIN_REQUESTS ==> watermark_fits(
                old(self).rate@,
                old(self).last_requested_blocks,
                old(self).backlog,
                millis,
            ),
        ensures
            final(self).wf(),
            choked || old(self).backlog >= MIN_REQUESTS ==> {
                &&& r@.len() == 0
                &&& final(self).spec_pieces() == old(self).spec_pieces()
                &&& final(self).backlog == old(self).backlog
                &&& final(self).max_requests == old(self).max_requests
                &&& final(self).last_requested_blocks == old(self).last_requested_blocks
                &&& final(self).rate@ == old(self).rate@
            },
            !choked && old(self).backlog < MIN_REQUESTS ==> {
                let l = old(self).last_requested_blocks;
                let b = old(self).backlog;
                let max1 = watermark_max(old(self).rate@, old(self).max_requests, l, b, millis);
                let budget = room(max1, b);
                &&& final(self).rate@ == watermark_rate(old(self).rate@, l, b, millis)
                &&& final(self).max_requests == max1
                &&& r@ == all_requests(old(self).spec_pieces(), budget)
                &&& final(self).spec_pieces() == pieces_after(old(self).spec_pieces(), budget)
                &&& final(self).backlog == b + r@.len()
                &&& final(self).last_requested_blocks == if r@.len() > 0 {
                    final(self).backlog
                } else {
                    l
                }
            },
    {
        if choked || self.backlog >= MIN_REQUESTS {
            return Vec::new();
        }
        self.adjust_watermark(millis);
        let ghost ps = self.spec_pieces();
        let ghost backlog0 = self.backlog;
        let ghost rate1 = self.rate@;
        let ghost max1 = self.max_requests;
        let ghost last0 = self.last_requested_blocks;
        let ghost budget = room(self.max_requests, self.backlog);
        proof {
            lemma_all_requests(ps, budget);
        }
        let mut pieces: Vec<PieceInProgress> = Vec::new();
        std::mem::swap(&mut pieces, &mut self.in_progress);
        let mut done: Vec<PieceInProgress> = Vec::new();
        let mut reqs: Vec<BlockRequest> = Vec::new();
        let n = pieces.len();
        let mut i: usize = 0;
        assert(pieces@.map_values(|p: PieceInProgress| p@) =~= ps.skip(0));
        assert(done@.map_values(|p: PieceInProgress| p@) =~= pieces_after(ps.take(0), budget));
        while i < n
            invariant
                n == ps.len(),
                i <= n,
                forall|k: int| 0 <= k < ps.len() ==> (#[trigger] ps[k]).requested <= ps[k].piece.len,
                pieces@.map_values(|p: PieceInProgress| p@) == ps.skip(i as int),
                done@.map_values(|p: PieceInProgress| p@) == pieces_after(ps.take(i as int), budget),
                reqs@ == all_requests(ps.take(i as int), budget),
                self.backlog == backlog0 + reqs@.len(),
                budget == room(self.max_requests, backlog0),
                room(self.max_requests, self.backlog) == budget - reqs@.len(),
                reqs@.len() <= budget,
                self.rate@ == rate1,
                self.rate.wf(),
                self.max_requests == max1,
                self.last_requested_blocks == last0,
                backlog0 <= last0,
            decreases n - i,
        {
            let ghost before_pieces = pieces@;
            assert(pieces@.map_values(|p: PieceInProgress| p@).len() == n - i);
            let mut p = pieces.remove(0);
            proof {
                assert(before_pieces.map_values(|p: PieceInProgress| p@)[0] == ps.skip(i as int)[0]);
                let pm = pieces@.map_values(|p: PieceInProgress| p@);
                let bm = before_pieces.map_values(|p: PieceInProgress| p@);
                assert forall|j: int| 0 <= j < pm.len() implies #[trigger] pm[j] == ps.skip(i as int + 1)[j] by {
                    assert(pieces@[j] == before_pieces[j + 1]);
                    assert(bm[j + 1] == ps.skip(i as int)[j + 1]);
                }
                assert(pm =~= ps.skip(i as int + 1));
                assert(ps.take(i as int + 1).drop_last() =~= ps.take(i as int));
                assert(ps.take(i as int + 1).last() == ps[i as int]);
                lemma_all_requests(ps.take(i as int), budget);
            }
            let ghost p0 = p@;
            let ghost mine0 = reqs@;
            let ghost bi: nat = (budget - mine0.len()) as nat;
            let idx = p.piece.index;
            let len = p.piece.len;
            while self.backlog < self.max_requests && p.requested < len
                invariant
                    p.piece == p0.piece,
                    p.buf@ == p0.buf,
                    p.downloaded == p0.downloaded,
                    len == p0.piece.len,
                    idx == p0.piece.index,
                    p0.requested <= p.requested <= len,
                    mine0.len() <= reqs@.len(),
                    reqs@.subrange(0, mine0.len() as int) == mine0,
                    piece_requests(idx, len, p0.requested, bi) == reqs@.skip(mine0.len() as int) + piece_requests(
                        idx,
                        len,
                        p.requested,
                        (bi - (reqs@.len() - mine0.len())) as nat,
                    ),
                    requested_after(len, p0.requested, bi) == requested_after(
                        len,
                        p.requested,
                        (bi - (reqs@.len() - mine0.len())) as nat,
                    ),
                    reqs@.len() - mine0.len() <= bi,
                    self.backlog == backlog0 + reqs@.len(),
                    room(self.max_requests, self.backlog) == budget - reqs@.len(),
                    budget == room(self.max_requests, backlog0),
                    self.rate@ == rate1,
                    self.rate.wf(),
                    self.max_requests == max1,
                    self.last_requested_blocks == last0,
                    mine0.len() <= budget,
                    bi == budget - mine0.len(),
                decreases len - p.requested,
            {
                let left = len - p.requested;
                let block = if left < MAX_BLOCK_SIZE {
                    left
                } else {
                    MAX_BLOCK_SIZE
                };
                let ghost rem = (bi - (reqs@.len() - mine0.len())) as nat;
                let ghost before = reqs@;
                let ghost req_now = p.requested;
                assert(rem > 0);
                assert(piece_requests(idx, len, req_now, rem) == seq![BlockRequest { index: idx, begin: req_now, len: block }].add(
                    piece_requests(idx, len, (req_now + block) as u32, (rem - 1) as nat),
                ));
                assert(requested_after(len, req_now, rem) == requested_after(len, (req_now + block) as u32, (rem - 1) as nat));
                reqs.push(BlockRequest { index: idx, begin: p.requested, len: block });
                proof {
                    assert(reqs@.skip(mine0.len() as int) =~= before.skip(mine0.len() as int).push(
                        BlockRequest { index: idx, begin: p.requested, len: block },
                    ));
                    assert(reqs@.subrange(0, mine0.len() as int) =~= before.subrange(0, mine0.len() as int));
                }
                self.backlog = self.backlog + 1;
                p.requested = p.requested + block;
                proof {
                    assert(reqs@.skip(mine0.len() as int) + piece_requests(idx, len, p.requested, (rem - 1) as nat) =~= before.skip(
                        mine0.len() as int,
                    ) + piece_requests(idx, len, req_now, rem));
                }
            }
            proof {
                let rem = (bi - (reqs@.len() - mine0.len())) as nat;
                assert(piece_requests(idx, len, p.requested, rem) =~= Seq::<BlockRequest>::empty());
                assert(reqs@ =~= mine0 + piece_requests(idx, len, p0.requested, bi));
            }
            let ghost pv = p@;
            done.push(p);
            proof {
                assert(pv == PipView { requested: requested_after(len, p0.requested, bi), ..p0 });
                assert(done@.map_values(|p: PieceInProgress| p@) =~= pieces_after(ps.take(i as int), budget).push(pv));
                lemma_piece_requests(idx, len, p0.requested, bi);
            }
            i = i + 1;
        }
        proof {
            assert(ps.take(n as int) =~= ps);
        }
        self.in_progress = done;
        if reqs.len() > 0 {
            self.last_requested_blocks = self.backlog;
        }
        proof {
            lemma_all_requests(ps, budget);
            let qs = self.spec_pieces();
            assert forall|a: int, b: int| 0 <= a < b < qs.len() implies qs[a].piece.index != qs[b].piece.index by {
                assert(qs[a] == pieces_after(ps, budget)[a]);
                assert(qs[b] == pieces_after(ps, budget)[b]);
            }
            assert forall|a: int| 0 <= a < qs.len() implies {
                &&& (#[trigger] qs[a]).piece.len <= MAX_PIECE_LEN
                &&& qs[a].buf.len() == qs[a].piece.len
                &&& qs[a].downloaded <= qs[a].piece.len
                &&& qs[a].requested <= qs[a].piece.len
            } by {
                assert(qs[a] == pieces_after(ps, budget)[a]);
            }
        }
        reqs
    }

    /// Takes in a received block of piece `index` at byte `begin`: the
    /// piece's buffer gets it when it fits, counting it received and one
    /// request fewer in flight; a piece with all its bytes received leaves
    /// the download complete.
    pub fn handle_block(&mut self, index: u32, begin: u32, data: &[u8]) -> (r: BlockOutcome)
        requires
            old(self).wf(),
            find_piece(old(self).spec_pieces(), index) >= 0 && block_fits(
                old(self).spec_pieces()[find_piece(old(self).spec_pieces(), index)].buf.len(),
                begin,
                data@.len(),
            ) ==> old(self).backlog > 0,
        ensures
            final(self).wf(),
            final(self).max_requests == old(self).max_requests,
            final(self).last_requested_blocks == old(self).last_requested_blocks,
            final(self).rate@ == old(self).rate@,
            ({
                let ps = old(self).spec_pieces();
                let k = find_piece(ps, index);
                let p = ps[k];
                let fits = block_fits(p.buf.len(), begin, data@.len());
                let q = after_block(p, begin, data@);
                &&& k < 0 ==> r is NotRequested && final(self).spec_pieces() == ps && final(self).backlog
                    == old(self).backlog
                &&& k >= 0 ==> final(self).backlog == if fits {
                    old(self).backlog - 1
                } else {
                    old(self).backlog as int
                }
                &&& k >= 0 && q.downloaded < q.piece.len ==> r == (BlockOutcome::Pending { written: fits })
                    && final(self).spec_pieces() == ps.update(k, q)
                &&& k >= 0 && q.downloaded >= q.piece.len ==> (r matches BlockOutcome::Complete { piece, written }
                    && piece@ == q && written == fits) && final(self).spec_pieces() == ps.remove(k)
            }),
    {
        let ghost ps = self.spec_pieces();
        let k = match self.position_of(index) {
            Some(k) => k,
            None => {
                return BlockOutcome::NotRequested;
            },
        };
        let mut p = self.in_progress.remove(k);
        assert(p@ == ps[k as int]);
        let ghost p0 = p@;
        let written = p.write_block(begin, data);
        if written {
            p.downloaded = p.downloaded + data.len() as u32;
            self.backlog = self.backlog - 1;
        }
        assert(p@ == after_block(p0, begin, data@));
        if p.downloaded < p.piece.len {
            self.in_progress.insert(k, p);
            proof {
                assert(self.spec_pieces() =~= ps.update(k as int, after_block(p0, begin, data@)));
                let qs = self.spec_pieces();
                assert forall|a: int, b: int| 0 <= a < b < qs.len() implies qs[a].piece.index != qs[b].piece.index by {
                    assert(qs[a].piece == ps[a].piece);
                    assert(qs[b].piece == ps[b].piece);
                }
                assert forall|a: int| 0 <= a < qs.len() implies {
                    &&& (#[trigger] qs[a]).piece.len <= MAX_PIECE_LEN
                    &&& qs[a].buf.len() == qs[a].piece.len
                    &&& qs[a].downloaded <= qs[a].piece.len
                    &&& qs[a].requested <= qs[a].piece.len
                } by {
                    if a != k {
                        assert(qs[a] == ps[a]);
                    }
                }
            }
            BlockOutcome::Pending { written }
        } else {
            proof {
                assert(self.spec_pieces() =~= ps.remove(k as int));
                let qs = self.spec_pieces();
                assert forall|a: int, b: int| 0 <= a < b < qs.len() implies qs[a].piece.index != qs[b].piece.index by {
                    let a2 = if a < k { a } else { a + 1 };
                    let b2 = if b < k { b } else { b + 1 };
                    assert(qs[a] == ps[a2]);
                    assert(qs[b] == ps[b2]);
                }
                assert forall|a: int| 0 <= a < qs.len() implies {
                    &&& (#[trigger] qs[a]).piece.len <= MAX_PIECE_LEN
                    &&& qs[a].buf.len() == qs[a].piece.len
                    &&& qs[a].downloaded <= qs[a].piece.len
                    &&& qs[a].requested <= qs[a].piece.len
                } by {
                    let a2 = if a < k { a } else { a + 1 };
                    assert(qs[a] == ps[a2]);
                }
            }
            BlockOutcome::Complete { piece: p, written }
        }
    }

    /// The position of the piece of this index, if in progress.
    fn position_of(&self, index: u32) -> (r: Option<usize>)
        requires
            self.wf(),
        ensures
            match r {
                Some(k) => find_piece(self.spec_pieces(), index) == k && k < self.spec_pieces().len()
                    && self.spec_pieces()[k as int].piece.index == index,
                None => find_piece(self.spec_pieces(), index) == -1 && forall|a: int|
                    0 <= a < self.spec_pieces().len() ==> self.spec_pieces()[a].piece.index != index,
            },
    {
        let ghost ps = self.spec_pieces();
        let mut i: usize = self.in_progress.len();
        assert(ps.take(i as int) =~= ps);
        while i > 0
            invariant
                i <= ps.len(),
                ps == self.spec_pieces(),
                find_piece(ps, index) == find_piece(ps.take(i as int), index),
                forall|a: int| i <= a < ps.len() ==> ps[a].piece.index != index,
            decreases i,
        {
            proof {
                assert(ps.take(i as int).drop_last() =~= ps.take(i - 1));
                assert(ps.take(i as int).last() == ps[i - 1]);
            }
            if self.in_progress[i - 1].piece.index == index {
                return Some(i - 1);
            }
            i = i - 1;
        }
        assert(ps.take(0) =~= Seq::<PipView>::empty());
        None
    }
}


/// The length of piece `i` of a torrent of `length` bytes cut in pieces
/// of `piece_len` bytes: a whole piece, or what is left for the last one.
pub open spec fn piece_len_at(length: int, piece_len: int, i: int) -> int {
    if length - i * piece_len < piece_len {
        length - i * piece_len
    } else {
        piece_len
    }
}

/// The pieces of a torrent of `length` bytes cut in pieces of
/// `piece_len` bytes, by index: as many as it takes to hold every byte,
/// each a whole piece but the last, which holds what is left.
pub fn pieces_of(length: usize, piece_len: usize) -> (r: Vec<PieceInfo>)
    requires
        0 < piece_len <= MAX_PIECE_LEN,
        length <= piece_len * 0x1_0000_0000,
    ensures
        r@.len() * piece_len >= length,
        r@.len() == 0 || (r@.len() - 1) * piece_len < length,
        forall|i: int|
            0 <= i < r@.len() ==> #[trigger] r@[i].index == i && r@[i].len == piece_len_at(
                length as int,
                piece_len as int,
                i,
            ),
{
    let mut r: Vec<PieceInfo> = Vec::new();
    let total: u64 = length as u64;
    let step: u64 = piece_len as u64;
    let mut off: u64 = 0;
    assert(r@.len() * piece_len == 0) by (nonlinear_arith)
        requires
            r@.len() == 0,
    ;
    while off < total
        invariant
            total == length,
            step == piece_len,
            0 < piece_len <= MAX_PIECE_LEN,
            length <= piece_len * 0x1_0000_0000,
            off == r@.len() * piece_len,
            r@.len() == 0 || (r@.len() - 1) * piece_len < length,
            forall|i: int|
                0 <= i < r@.len() ==> #[trigger] r@[i].index == i && r@[i].len == piece_len_at(
                    length as int,
                    piece_len as int,
                    i,
                ),
        decreases 0x1_0000_0000 - r@.len(),
    {
        let n = r.len();
        assert(n < 0x1_0000_0000) by (nonlinear_arith)
            requires
                off == n * piece_len,
                off < length,
                length <= piece_len * 0x1_0000_0000,
                piece_len > 0,
        ;
        let rest = total - off;
        let len: u32 = if rest < step {
            rest as u32
        } else {
            step as u32
        };
        let ghost before = r@;
        r.push(PieceInfo { index: n as u32, len });
        assert(off + step <= 0xffff_ffff_ffff_ffffu64) by (nonlinear_arith)
            requires
                off < length,
                length <= piece_len * 0x1_0000_0000,
                step == piece_len,
                piece_len <= MAX_PIECE_LEN,
        ;
        proof {
            assert forall|i: int| 0 <= i < r@.len() implies #[trigger] r@[i].index == i && r@[i].len == piece_len_at(
                length as int,
                piece_len as int,
                i,
            ) by {
                if i < n {
                    assert(r@[i] == before[i]);
                }
            }
            assert((n + 1) * piece_len == n * piece_len + piece_len) by (nonlinear_arith);
        }
        off = off + step;
    }
    r
}

} // verus!
