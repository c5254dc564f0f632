//! Torrent metadata: the info hash that names a torrent and what a
//! torrent describes.
use crate::clock::ExInstant;
use crate::hexcode::{ascii_text, base32_encode_20, base32_of_20, hex_digit_upper, hex_upper, hex_upper_encode};
use std::time::Instant;
use vstd::prelude::*;

verus! {

/// Whether a byte is an ASCII letter or digit.
pub open spec fn is_alnum(b: u8) -> bool {
    (48 <= b <= 57) || (65 <= b <= 90) || (97 <= b <= 122)
}

/// The percent-encoding of a byte string in which only ASCII letters and
/// digits stand for themselves; every other byte is `%` and two
/// upper-case hex digits.
pub open spec fn url_escape(s: Seq<u8>) -> Seq<u8>
    decreases s.len(),
{
    if s.len() == 0 {
        Seq::empty()
    } else {
        let b = s.last();
        url_escape(s.drop_last()) + if is_alnum(b) {
            seq![b]
        } else {
            seq![37u8, hex_digit_upper(b >> 4), hex_digit_upper(b & 15)]
        }
    }
}

/// The percent-encoding of `input` with every byte but ASCII letters and
/// digits escaped (`percent_encode(input, NON_ALPHANUMERIC)`, as text).
#[verifier::external_body]
fn percent_encode_non_alnum(input: &[u8]) -> (r: String)
    ensures
        r@ == ascii_text(url_escape(input@)),
{
    percent_encoding::percent_encode(input, percent_encoding::NON_ALPHANUMERIC).to_string()
}

/// The percent-encoding of a byte string is ASCII.
proof fn lemma_url_escape_ascii(s: Seq<u8>)
    ensures
        forall|i: int| 0 <= i < url_escape(s).len() ==> #[trigger] url_escape(s)[i] < 128,
    decreases s.len(),
{
    if s.len() > 0 {
        let b = s.last();
        lemma_url_escape_ascii(s.drop_last());
        assert((b >> 4u8) < 16 && (b & 15u8) < 16) by (bit_vector);
        let tail: Seq<u8> = if is_alnum(b) {
            seq![b]
        } else {
            seq![37u8, hex_digit_upper(b >> 4), hex_digit_upper(b & 15)]
        };
        assert(url_escape(s) == url_escape(s.drop_last()) + tail);
        assert forall|i: int| 0 <= i < url_escape(s).len() implies #[trigger] url_escape(s)[i] < 128 by {
            if i >= url_escape(s.drop_last()).len() {
                assert(url_escape(s)[i] == tail[i - url_escape(s.drop_last()).len()]);
            }
        }
    }
}

/// The bytes of the percent-encoding of `input` in which only ASCII
/// letters and digits stand for themselves.
pub fn url_escaped_bytes(input: &[u8]) -> (r: Vec<u8>)
    ensures
        r@ == url_escape(input@),
{
    let text = percent_encode_non_alnum(input);
    let t = text.as_str();
    proof {
        let u = url_escape(input@);
        lemma_url_escape_ascii(input@);
        assert(vstd::utf8::is_ascii_chars(t@)) by {
            assert forall|i: int| 0 <= i < t@.len() implies '\0' <= #[trigger] t@[i] <= '\u{7f}' by {
                assert(u[i] < 128);
            }
        }
        vstd::utf8::is_ascii_chars_encode_utf8(t@);
    }
    let b = t.as_bytes();
    let mut out: Vec<u8> = Vec::new();
    let mut i: usize = 0;
    while i < b.len()
        invariant
            i <= b@.len(),
            b@.len() == url_escape(input@).len(),
            forall|k: int| 0 <= k < b@.len() ==> b@[k] == url_escape(input@)[k],
            out@ == b@.take(i as int),
        decreases b@.len() - i,
    {
        out.push(b[i]);
        i = i + 1;
    }
    proof {
        assert forall|k: int| 0 <= k < b@.len() implies b@[k] == url_escape(input@)[k] by {}
        assert(out@ =~= url_escape(input@));
    }
    out
}

/// The SHA-1 hash of a torrent's info dictionary, which names the torrent.
#[derive(Clone, Debug, Default, PartialEq, Eq)]
pub struct InfoHash(pub [u8; 20]);

impl View for InfoHash {
    type V = Seq<u8>;

    open spec fn view(&self) -> Seq<u8> {
        self.0@
    }
}

/// Why bytes were refused as an info hash.
#[derive(Debug, Clone, Copy, PartialEq, Eq, Structural)]
pub struct IncorrectLength;

impl InfoHash {
    /// The hash percent-encoded for a tracker URL: letters and digits as
    /// they are, every other byte as `%` and two upper-case hex digits.
    pub fn encode_url(&self) -> (r: String)
        ensures
            r@ == ascii_text(url_escape(self@)),
    {
        percent_encode_non_alnum(&self.0)
    }

    /// The hash as forty upper-case hex digits.
    pub fn encode_hex(&self) -> (r: String)
        ensures
            r@ == ascii_text(hex_upper(self@)),
    {
        hex_upper_encode(&self.0)
    }

    /// The hash as thirty-two base32 symbols.
    pub fn encode_base32(&self) -> (r: String)
        ensures
            r@ == ascii_text(base32_of_20(self@)),
    {
        base32_encode_20(&self.0)
    }

    /// The twenty bytes of the hash.
    pub fn as_ref(&self) -> (r: &[u8; 20])
        ensures
            r@ == self@,
    {
        &self.0
    }

    /// The hash of twenty bytes.
    pub fn from(b: [u8; 20]) -> (r: Self)
        ensures
            r@ == b@,
    {
        InfoHash(b)
    }

    /// The hash held by `buf`, which must be twenty bytes long.
    pub fn try_from(buf: &[u8]) -> (r: Result<Self, IncorrectLength>)
        ensures
            r is Ok <==> buf@.len() == 20,
            r matches Ok(h) ==> h@ == buf@,
    {
        if buf.len() != 20 {
            return Err(IncorrectLength);
        }
        let mut b = [0u8; 20];
        let mut i: usize = 0;
        while i < 20
            invariant
                i <= 20,
                buf@.len() == 20,
                forall|j: int| 0 <= j < i ==> b@[j] == buf@[j],
            decreases 20 - i,
        {
            b[i] = buf[i];
            i = i + 1;
        }
        assert(b@ =~= buf@);
        Ok(InfoHash(b))
    }
}

/// The length of the SHA-1 hash of one chunk.
pub const CHUNK_HASH_LEN: usize = 20;

/// The id by which a torrent is known: its info hash.
pub type TorrentId = InfoHash;

/// The tracker a torrent announces to.
#[derive(Clone, Debug, PartialEq, Eq)]
pub struct AnnounceKey(pub String);

/// Where a torrent's metadata comes from.
pub struct TorrentSource {
    /// Metadata that fully describes the torrent (usually a .torrent
    /// file), when there is one.
    pub metadata: Option<Vec<u8>>,
    /// The part of the metadata shared with other peers (usually the info
    /// dictionary).
    pub exchanged_metadata: Vec<u8>,
}

/// A file of a torrent.
pub struct TorrentFile {
    /// Size of this file, in bytes.
    pub len: usize,
    /// Path of the file: subdirectory names and the file name, separated
    /// by `/`.
    pub path: String,
}

/// A torrent: what it holds and where it comes from.
pub struct Torrent {
    source: TorrentSource,
    announce_key: Option<AnnounceKey>,
    torrent_id: TorrentId,
    name: String,
    chunk_size: usize,
    chunk_hashes: Vec<u8>,
    len: usize,
    files: Vec<TorrentFile>,
    is_private: bool,
    created: Option<Instant>,
    created_by: Option<String>,
}

/// The `i`-th run of `n` bytes of `s` (the last one possibly shorter).
pub open spec fn chunk_of(s: Seq<u8>, n: int, i: int) -> Seq<u8> {
    s.subrange(n * i, if n * (i + 1) < s.len() { n * (i + 1) } else { s.len() as int })
}

impl Torrent {
    /// A torrent of the given parts.
    pub fn new(
        source: TorrentSource,
        announce_key: Option<AnnounceKey>,
        torrent_id: TorrentId,
        name: String,
        chunk_size: usize,
        chunk_hashes: Vec<u8>,
        len: usize,
        files: Vec<TorrentFile>,
        is_private: bool,
        created: Option<Instant>,
        created_by: Option<String>,
    ) -> (r: Self)
        ensures
            r.spec_name() == name@,
            r.spec_chunk_size() == chunk_size,
            r.spec_chunk_hashes() == chunk_hashes@,
            r.spec_len() == len,
            r.spec_is_private() == is_private,
            r.spec_torrent_id() == torrent_id,
            r.spec_announce_key() == announce_key,
            r.spec_files_len() == files@.len(),
            r.spec_created() == created,
            r.spec_created_by() == (match created_by {
                Some(c) => Some(c@),
                None => None::<Seq<char>>,
            }),
    {
        Torrent {
            source,
            announce_key,
            torrent_id,
            name,
            chunk_size,
            chunk_hashes,
            len,
            files,
            is_private,
            created,
            created_by,
        }
    }

    pub closed spec fn spec_name(&self) -> Seq<char> {
        self.name@
    }

    pub closed spec fn spec_chunk_size(&self) -> usize {
        self.chunk_size
    }

    pub closed spec fn spec_chunk_hashes(&self) -> Seq<u8> {
        self.chunk_hashes@
    }

    pub closed spec fn spec_len(&self) -> usize {
        self.len
    }

    pub closed spec fn spec_is_private(&self) -> bool {
        self.is_private
    }

    pub closed spec fn spec_torrent_id(&self) -> TorrentId {
        self.torrent_id
    }

    pub closed spec fn spec_announce_key(&self) -> Option<AnnounceKey> {
        self.announce_key
    }

    pub closed spec fn spec_files_len(&self) -> nat {
        self.files@.len()
    }

    pub closed spec fn spec_source(&self) -> TorrentSource {
        self.source
    }

    pub closed spec fn spec_created(&self) -> Option<Instant> {
        self.created
    }

    pub closed spec fn spec_created_by(&self) -> Option<Seq<char>> {
        match self.created_by {
            Some(c) => Some(c@),
            None => None,
        }
    }

    /// Where the torrent's metadata comes from.
    pub fn source(&self) -> (r: &TorrentSource)
        ensures
            *r == self.spec_source(),
    {
        &self.source
    }

    /// Announce key, or `None` for trackerless torrents.
    pub fn announce_key(&self) -> (r: Option<&AnnounceKey>)
        ensures
            match r {
                Some(k) => self.spec_announce_key() == Some(*k),
                None => self.spec_announce_key() is None,
            },
    {
        match &self.announce_key {
            Some(k) => Some(k),
            None => None,
        }
    }

    /// Torrent ID.
    pub fn torrent_id(&self) -> (r: &TorrentId)
        ensures
            *r == self.spec_torrent_id(),
    {
        &self.torrent_id
    }

    /// Suggested name for this torrent.
    pub fn name(&self) -> (r: &str)
        ensures
            r@ == self.spec_name(),
    {
        self.name.as_str()
    }

    /// Size of a chunk, in bytes.
    pub fn chunk_size(&self) -> (r: usize)
        ensures
            r == self.spec_chunk_size(),
    {
        self.chunk_size
    }

    /// Sequence of SHA-1 hashes of all chunks in this torrent: the hash
    /// bytes cut into runs of twenty.
    pub fn chunk_hashes(&self) -> (r: Vec<&[u8]>)
        ensures
            r@.len() == (self.spec_chunk_hashes().len() + 19) / 20,
            forall|i: int| 0 <= i < r@.len() ==> (#[trigger] r@[i])@ == chunk_of(self.spec_chunk_hashes(), 20, i),
    {
        let s = self.chunk_hashes.as_slice();
        let n = s.len();
        let mut out: Vec<&[u8]> = Vec::new();
        let mut start: usize = 0;
        while start < n
            invariant
                n == s@.len(),
                s@ == self.chunk_hashes@,
                start <= n,
                start == (if 20 * out@.len() < n { (20 * out@.len()) as int } else { n as int }),
                20 * out@.len() < n + 20,
                forall|i: int| 0 <= i < out@.len() ==> (#[trigger] out@[i])@ == chunk_of(s@, 20, i),
            decreases n - start,
        {
            let end = if n - start > CHUNK_HASH_LEN {
                start + CHUNK_HASH_LEN
            } else {
                n
            };
            let piece = vstd::slice::slice_subrange(s, start, end);
            out.push(piece);
            start = end;
        }
        out
    }

    /// Total size of all chunks in this torrent, in bytes.
    pub fn len(&self) -> (r: usize)
        ensures
            r == self.spec_len(),
    {
        self.len
    }

    /// Information on the files contained in this torrent.
    pub fn files(&self) -> (r: &[TorrentFile])
        ensures
            r@.len() == self.spec_files_len(),
    {
        self.files.as_slice()
    }

    /// True if this torrent is private (see BEP-27)
    pub fn is_private(&self) -> (r: bool)
        ensures
            r == self.spec_is_private(),
    {
        self.is_private
    }

    /// Creation time of the torrent
    pub fn created(&self) -> (r: Option<&Instant>)
        ensures
            match r {
                Some(t) => self.spec_created() == Some(*t),
                None => self.spec_created() is None,
            },
    {
        match &self.created {
            Some(t) => Some(t),
            None => None,
        }
    }

    /// Creator of the torrent (usually name and version of the program
    /// used to create the .torrent file)
    pub fn created_by(&self) -> (r: Option<&str>)
        ensures
            match r {
                Some(s) => self.spec_created_by() == Some(s@),
                None => self.spec_created_by() is None,
            },
    {
        match &self.created_by {
            Some(s) => Some(s.as_str()),
            None => None,
        }
    }
}

} // verus!
