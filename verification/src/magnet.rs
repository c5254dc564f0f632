//! Magnet links: the info hash, name, trackers and peers a `magnet:` URI
//! names.
use crate::bencode::{bytes_eq, key};
use crate::dht::contact::SockAddr;
use crate::hexcode::{base32_decode_32, base32_decoded, hex_decoded, hex_lower_permissive_decode, hex_valid};
use crate::metainfo::InfoHash;
use crate::netaddr::{parse_sock_addr, sock_addr_text};
use crate::urltext::{parse_url, url_of, ParsedUrl, UrlModel};
use vstd::prelude::*;
use vstd::utf8::encode_utf8;

verus! {

/// Why a magnet URI was refused.
#[derive(Debug, Clone, Copy, PartialEq, Eq, Structural)]
pub enum MagnetError {
    /// The text is not a URI.
    InvalidUri,
    /// The scheme is not `magnet`.
    IncorrectScheme,
    /// A forty-digit info hash that is not hex.
    InvalidHex,
    /// A thirty-two symbol info hash that is not base32.
    InvalidBase32,
    /// An info hash neither forty nor thirty-two symbols long.
    InvalidInfohashLength,
    /// Two different info hashes.
    MultipleInfohashes,
    /// A peer address that is not one (when parsing strictly).
    InvalidPeerAddr,
    /// No info hash.
    NoInfohash,
}

impl MagnetError {
    /// The message of the error.
    pub fn as_str(&self) -> (r: &'static str)
        ensures
            r@ == match *self {
                MagnetError::InvalidUri => "Invalid URI"@,
                MagnetError::IncorrectScheme => "Incorrect scheme"@,
                MagnetError::InvalidHex => "Invalid hex string"@,
                MagnetError::InvalidBase32 => "Invalid base 32 string"@,
                MagnetError::InvalidInfohashLength => "Invalid infohash length"@,
                MagnetError::MultipleInfohashes => "Multiple infohashes found"@,
                MagnetError::InvalidPeerAddr => "Invalid peer addr"@,
                MagnetError::NoInfohash => "No infohash found"@,
            },
    {
        match self {
            MagnetError::InvalidUri => "Invalid URI",
            MagnetError::IncorrectScheme => "Incorrect scheme",
            MagnetError::InvalidHex => "Invalid hex string",
            MagnetError::InvalidBase32 => "Invalid base 32 string",
            MagnetError::InvalidInfohashLength => "Invalid infohash length",
            MagnetError::MultipleInfohashes => "Multiple infohashes found",
            MagnetError::InvalidPeerAddr => "Invalid peer addr",
            MagnetError::NoInfohash => "No infohash found",
        }
    }
}

/// What a magnet URI names.
#[derive(Debug)]
pub struct MagnetUri {
    pub info_hash: InfoHash,
    pub display_name: Option<String>,
    /// Tracker URLs, each once, in the order first given.
    pub tracker_urls: Vec<String>,
    pub peer_addrs: Vec<SockAddr>,
}

/// The model of what a magnet URI names.
pub struct MagnetModel {
    pub info_hash: Seq<u8>,
    pub has_info_hash: bool,
    pub display_name: Option<Seq<char>>,
    pub tracker_urls: Seq<Seq<char>>,
    pub peer_addrs: Seq<SockAddr>,
}

/// Twenty bytes: `v` followed by zeros.
pub open spec fn pad20(v: Seq<u8>) -> Seq<u8> {
    Seq::new(20, |i: int| if i < v.len() { v[i] } else { 0u8 })
}

/// The info hash a `urn:btih:` value encodes: forty hex digits, or
/// thirty-two base32 symbols.
pub open spec fn info_hash_of(encoded: Seq<u8>) -> Result<Seq<u8>, MagnetError> {
    if encoded.len() == 40 {
        if hex_valid(encoded) {
            Ok(hex_decoded(encoded))
        } else {
            Err(MagnetError::InvalidHex)
        }
    } else if encoded.len() == 32 {
        match base32_decoded(encoded) {
            None => Err(MagnetError::InvalidBase32),
            Some(v) => Ok(pad20(v)),
        }
    } else {
        Err(MagnetError::InvalidInfohashLength)
    }
}

/// The model before any parameter.
pub open spec fn magnet_init() -> MagnetModel {
    MagnetModel {
        info_hash: Seq::new(20, |i: int| 0u8),
        has_info_hash: false,
        display_name: None,
        tracker_urls: Seq::empty(),
        peer_addrs: Seq::empty(),
    }
}

/// `s` with `x` added unless it is there already.
pub open spec fn insert_new(s: Seq<Seq<char>>, x: Seq<char>) -> Seq<Seq<char>> {
    if s.contains(x) {
        s
    } else {
        s.push(x)
    }
}

/// The model after one query parameter `(k, v)`.
pub open spec fn magnet_step(
    strict: bool,
    st: MagnetModel,
    k: Seq<char>,
    v: Seq<char>,
) -> Result<MagnetModel, MagnetError> {
    let kb = encode_utf8(k);
    let vb = encode_utf8(v);
    if kb == key("xt") {
        if vb.len() >= 9 && vb.take(9) == key("urn:btih:") {
            match info_hash_of(vb.skip(9)) {
                Err(e) => Err(e),
                Ok(ih) => if st.has_info_hash && ih != st.info_hash {
                    Err(MagnetError::MultipleInfohashes)
                } else {
                    Ok(MagnetModel { info_hash: ih, has_info_hash: true, ..st })
                },
            }
        } else {
            Ok(st)
        }
    } else if kb == key("dn") {
        Ok(MagnetModel { display_name: Some(v), ..st })
    } else if kb == key("tr") {
        Ok(MagnetModel { tracker_urls: insert_new(st.tracker_urls, v), ..st })
    } else if kb == key("x.pe") {
        match sock_addr_text(v) {
            Some(a) => Ok(MagnetModel { peer_addrs: st.peer_addrs.push(a), ..st }),
            None => if strict {
                Err(MagnetError::InvalidPeerAddr)
            } else {
                Ok(st)
            },
        }
    } else {
        Ok(st)
    }
}

/// The model after the first `n` query parameters.
pub open spec fn magnet_fold(
    strict: bool,
    pairs: Seq<(Seq<char>, Seq<char>)>,
    n: int,
) -> Result<MagnetModel, MagnetError>
    decreases n,
{
    if n <= 0 {
        Ok(magnet_init())
    } else {
        match magnet_fold(strict, pairs, n - 1) {
            Err(e) => Err(e),
            Ok(st) => magnet_step(strict, st, pairs[n - 1].0, pairs[n - 1].1),
        }
    }
}

/// What a parsed magnet URI names.
pub open spec fn magnet_spec(strict: bool, url: UrlModel) -> Result<MagnetModel, MagnetError> {
    if encode_utf8(url.scheme) != key("magnet") {
        Err(MagnetError::IncorrectScheme)
    } else {
        match magnet_fold(strict, url.pairs, url.pairs.len() as int) {
            Err(e) => Err(e),
            Ok(st) => if st.has_info_hash {
                Ok(st)
            } else {
                Err(MagnetError::NoInfohash)
            },
        }
    }
}

/// An error stops the reading of the parameters.
proof fn lemma_fold_err(
    strict: bool,
    pairs: Seq<(Seq<char>, Seq<char>)>,
    n: int,
    m: int,
)
    requires
        0 <= n <= m,
        magnet_fold(strict, pairs, n) is Err,
    ensures
        magnet_fold(strict, pairs, m) == magnet_fold(strict, pairs, n),
    decreases m - n,
{
    if m > n {
        lemma_fold_err(strict, pairs, n, m - 1);
    }
}

/// The forty-digit hex text of an info hash names that info hash.
pub proof fn law_hex_info_hash(h: Seq<u8>)
    requires
        h.len() == 20,
    ensures
        info_hash_of(crate::hexcode::hex_upper(h)) == Ok::<Seq<u8>, MagnetError>(h),
{
    crate::hexcode::law_hex_roundtrip(h);
}

/// A magnet URI names each tracker once, however often it is given.
pub proof fn law_trackers_distinct(strict: bool, pairs: Seq<(Seq<char>, Seq<char>)>, n: int)
    ensures
        magnet_fold(strict, pairs, n) matches Ok(st) ==> forall|i: int, j: int|
            0 <= i < j < st.tracker_urls.len() ==> st.tracker_urls[i] != st.tracker_urls[j],
    decreases n,
{
    if n > 0 {
        law_trackers_distinct(strict, pairs, n - 1);
        match magnet_fold(strict, pairs, n - 1) {
            Err(_) => {},
            Ok(st) => {
                let t = st.tracker_urls;
                let v = pairs[n - 1].1;
                if !t.contains(v) {
                    assert forall|i: int, j: int| 0 <= i < j < t.push(v).len() implies t.push(v)[i] != t.push(v)[j] by {
                        if j == t.len() {
                            assert(t.push(v)[i] == t[i]);
                        }
                    }
                }
            },
        }
    }
}

/// Whether `m` holds what the model describes.
pub open spec fn magnet_matches(m: MagnetUri, st: MagnetModel) -> bool {
    &&& m.info_hash@ == st.info_hash
    &&& match m.display_name {
        Some(d) => st.display_name == Some(d@),
        None => st.display_name is None,
    }
    &&& m.tracker_urls@.map_values(|s: String| s@) == st.tracker_urls
    &&& m.peer_addrs@ == st.peer_addrs
}

/// The twenty bytes `encoded` stands for, as forty hex digits or
/// thirty-two base32 symbols.
fn build_info_hash(encoded: &[u8]) -> (r: Result<InfoHash, MagnetError>)
    ensures
        match r {
            Ok(h) => info_hash_of(encoded@) == Ok::<Seq<u8>, MagnetError>(h@),
            Err(e) => info_hash_of(encoded@) == Err::<Seq<u8>, MagnetError>(e),
        },
{
    if encoded.len() == 40 {
        match hex_lower_permissive_decode(encoded) {
            None => Err(MagnetError::InvalidHex),
            Some(v) => {
                assert(pad20(v@) =~= v@);
                Ok(InfoHash(pad_20(&v)))
            },
        }
    } else if encoded.len() == 32 {
        match base32_decode_32(encoded) {
            None => Err(MagnetError::InvalidBase32),
            Some(v) => Ok(InfoHash(pad_20(&v))),
        }
    } else {
        Err(MagnetError::InvalidInfohashLength)
    }
}

/// Twenty bytes: those of `v` (at most twenty), then zeros.
fn pad_20(v: &Vec<u8>) -> (r: [u8; 20])
    ensures
        r@ == pad20(v@),
{
    let mut r = [0u8; 20];
    let mut i: usize = 0;
    while i < 20
        invariant
            i <= 20,
            forall|j: int| 0 <= j < i ==> r@[j] == pad20(v@)[j],
            forall|j: int| i <= j < 20 ==> r@[j] == 0,
        decreases 20 - i,
    {
        if i < v.len() {
            r[i] = v[i];
        }
        i = i + 1;
    }
    assert(r@ =~= pad20(v@));
    r
}

/// Whether the list holds this text.
fn contains_text(v: &Vec<String>, s: &String) -> (r: bool)
    ensures
        r == v@.map_values(|t: String| t@).contains(s@),
{
    let ghost m = v@.map_values(|t: String| t@);
    let mut i: usize = 0;
    while i < v.len()
        invariant
            i <= v@.len(),
            m == v@.map_values(|t: String| t@),
            forall|j: int| 0 <= j < i ==> m[j] != s@,
        decreases v@.len() - i,
    {
        if v[i] == *s {
            assert(m[i as int] == s@);
            return true;
        }
        i = i + 1;
    }
    false
}

/// Whether the UTF-8 bytes of `s` are those of `k`.
fn is_key(s: &String, k: &str) -> (r: bool)
    ensures
        r == (encode_utf8(s@) == key(k)),
{
    bytes_eq(s.as_str().as_bytes(), k.as_bytes())
}

/// A magnet URI parser: strict parsers refuse peer addresses they cannot
/// read, lenient ones skip them.
pub struct MagnetUriParser {
    pub strict: bool,
}

impl MagnetUriParser {
    /// A strict parser.
    pub fn new() -> (r: Self)
        ensures
            r.strict,
    {
        Self { strict: true }
    }

    /// A lenient parser.
    pub fn new_lenient() -> (r: Self)
        ensures
            !r.strict,
    {
        Self { strict: false }
    }

    /// Reads what a parsed URI names.
    pub fn parse_parts(&self, url: &ParsedUrl) -> (r: Result<MagnetUri, MagnetError>)
        ensures
            match r {
                Ok(m) => magnet_spec(self.strict, url@) matches Ok(st) && magnet_matches(m, st),
                Err(e) => magnet_spec(self.strict, url@) == Err::<MagnetModel, MagnetError>(e),
            },
    {
        if !is_key(&url.scheme, "magnet") {
            return Err(MagnetError::IncorrectScheme);
        }
        let ghost pairs = url@.pairs;
        let mut magnet = MagnetUri {
            info_hash: InfoHash([0u8; 20]),
            display_name: None,
            tracker_urls: Vec::new(),
            peer_addrs: Vec::new(),
        };
        let mut has_ih = false;
        let mut i: usize = 0;
        assert(magnet.info_hash@ =~= Seq::new(20, |i: int| 0u8));
        assert(magnet.tracker_urls@.map_values(|s: String| s@) =~= Seq::<Seq<char>>::empty());
        while i < url.pairs.len()
            invariant
                i <= url.pairs@.len(),
                pairs == url@.pairs,
                encode_utf8(url@.scheme) == key("magnet"),
                magnet_fold(self.strict, pairs, i as int) matches Ok(st) && magnet_matches(magnet, st)
                    && st.has_info_hash == has_ih,
            decreases url.pairs@.len() - i,
        {
            let ghost st = magnet_fold(self.strict, pairs, i as int)->Ok_0;
            let k = &url.pairs[i].0;
            let v = &url.pairs[i].1;
            assert(pairs[i as int] == (k@, v@));
            if is_key(k, "xt") {
                let vb = v.as_str().as_bytes();
                let has_prefix = if vb.len() >= 9 {
                    let head = vstd::slice::slice_subrange(vb, 0, 9);
                    assert(head@ =~= vb@.take(9));
                    bytes_eq(head, "urn:btih:".as_bytes())
                } else {
                    false
                };
                if has_prefix {
                    let rest = vstd::slice::slice_subrange(vb, 9, vb.len());
                    assert(rest@ =~= vb@.skip(9));
                    let info_hash = match build_info_hash(rest) {
                        Ok(h) => h,
                        Err(e) => {
                            proof {
                                assert(encode_utf8(v@) == vb@);
                                assert(magnet_step(self.strict, st, k@, v@) == Err::<MagnetModel, MagnetError>(e));
                                assert(magnet_fold(self.strict, pairs, i + 1) == magnet_step(
                                    self.strict,
                                    st,
                                    k@,
                                    v@,
                                ));
                                lemma_fold_err(self.strict, pairs, i + 1, pairs.len() as int);
                            }
                            return Err(e);
                        },
                    };
                    if has_ih && !crate::client::handshake::same_20(&info_hash.0, &magnet.info_hash.0) {
                        proof {
                            assert(encode_utf8(v@) == vb@);
                            assert(magnet_fold(self.strict, pairs, i + 1) == magnet_step(
                                self.strict,
                                st,
                                k@,
                                v@,
                            ));
                            lemma_fold_err(self.strict, pairs, i + 1, pairs.len() as int);
                        }
                        return Err(MagnetError::MultipleInfohashes);
                    }
                    magnet.info_hash = info_hash;
                    has_ih = true;
                }
            } else if is_key(k, "dn") {
                magnet.display_name = Some(v.clone());
            } else if is_key(k, "tr") {
                if !contains_text(&magnet.tracker_urls, v) {
                    magnet.tracker_urls.push(v.clone());
                    assert(magnet.tracker_urls@.map_values(|s: String| s@) =~= st.tracker_urls.push(v@));
                }
            } else if is_key(k, "x.pe") {
                match parse_sock_addr(v.as_str()) {
                    Some(a) => {
                        magnet.peer_addrs.push(a);
                    },
                    None => {
                        if self.strict {
                            proof {
                                lemma_fold_err(self.strict, pairs, i + 1, pairs.len() as int);
                            }
                            return Err(MagnetError::InvalidPeerAddr);
                        }
                    },
                }
            }
            i = i + 1;
        }
        if has_ih {
            Ok(magnet)
        } else {
            Err(MagnetError::NoInfohash)
        }
    }

    /// Reads what a magnet URI names; `InvalidUri` when the text is not a
    /// URI.
    pub fn parse(&self, uri: &str) -> (r: Result<MagnetUri, MagnetError>)
        ensures
            url_of(uri@) is None ==> r == Err::<MagnetUri, MagnetError>(MagnetError::InvalidUri),
            url_of(uri@) is Some ==> match r {
                Ok(m) => magnet_spec(self.strict, url_of(uri@)->0) matches Ok(st) && magnet_matches(m, st),
                Err(e) => magnet_spec(self.strict, url_of(uri@)->0) == Err::<MagnetModel, MagnetError>(e),
            },
    {
        match parse_url(uri) {
            Some(url) => self.parse_parts(&url),
            None => Err(MagnetError::InvalidUri),
        }
    }
}

impl MagnetUri {
    /// Reads a magnet URI strictly; `InvalidUri` when the text is not a
    /// URI.
    pub fn parse(s: &str) -> (r: Result<MagnetUri, MagnetError>)
        ensures
            url_of(s@) is None ==> r == Err::<MagnetUri, MagnetError>(MagnetError::InvalidUri),
            url_of(s@) is Some ==> match r {
                Ok(m) => magnet_spec(true, url_of(s@)->0) matches Ok(st) && magnet_matches(m, st),
                Err(e) => magnet_spec(true, url_of(s@)->0) == Err::<MagnetModel, MagnetError>(e),
            },
    {
        MagnetUriParser::new().parse(s)
    }

    /// Reads a magnet URI leniently; `InvalidUri` when the text is not a
    /// URI.
    pub fn parse_lenient(s: &str) -> (r: Result<MagnetUri, MagnetError>)
        ensures
            url_of(s@) is None ==> r == Err::<MagnetUri, MagnetError>(MagnetError::InvalidUri),
            url_of(s@) is Some ==> match r {
                Ok(m) => magnet_spec(false, url_of(s@)->0) matches Ok(st) && magnet_matches(m, st),
                Err(e) => magnet_spec(false, url_of(s@)->0) == Err::<MagnetModel, MagnetError>(e),
            },
    {
        MagnetUriParser::new_lenient().parse(s)
    }
}

} // verus!
