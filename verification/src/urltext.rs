//! URLs and UTF-8 text read from bytes, through the `url` crate and std.
use vstd::prelude::*;

verus! {

/// The parts of a parsed URL that this library reads.
pub struct ParsedUrl {
    /// The scheme, in lower case.
    pub scheme: String,
    /// The query's key-value pairs, percent-decoded, in order.
    pub pairs: Vec<(String, String)>,
    /// The host, when the URL has one.
    pub host: Option<String>,
    /// The port, when the URL gives one that is not the scheme's default.
    pub port: Option<u16>,
}

/// The model of a parsed URL.
pub struct UrlModel {
    pub scheme: Seq<char>,
    pub pairs: Seq<(Seq<char>, Seq<char>)>,
    pub host: Option<Seq<char>>,
    pub port: Option<u16>,
}

impl View for ParsedUrl {
    type V = UrlModel;

    open spec fn view(&self) -> UrlModel {
        UrlModel {
            scheme: self.scheme@,
            pairs: self.pairs@.map_values(|p: (String, String)| (p.0@, p.1@)),
            host: match self.host {
                Some(h) => Some(h@),
                None => None,
            },
            port: self.port,
        }
    }
}

/// What the `url` crate makes of a text: `None` when it is no URL.
pub uninterp spec fn url_of(text: Seq<char>) -> Option<UrlModel>;

/// Parses a URL (`url::Url::parse`) and reads its scheme, query pairs,
/// host and port.
#[verifier::external_body]
pub(crate) fn parse_url(text: &str) -> (r: Option<ParsedUrl>)
    ensures
        match r {
            None => url_of(text@) is None,
            Some(u) => url_of(text@) == Some(u@),
        },
{
    let u = url::Url::parse(text).ok()?;
    Some(ParsedUrl {
        scheme: u.scheme().to_string(),
        pairs: u.query_pairs().map(|(k, v)| (k.into_owned(), v.into_owned())).collect(),
        host: u.host_str().map(|h| h.to_string()),
        port: u.port(),
    })
}

/// The text bytes encode when they are valid UTF-8, else `None`.
#[verifier::opaque]
pub open spec fn utf8_of(bytes: Seq<u8>) -> Option<Seq<char>> {
    if vstd::utf8::valid_utf8(bytes) {
        Some(vstd::utf8::decode_utf8(bytes))
    } else {
        None
    }
}

/// The text a byte string encodes, if it is valid UTF-8
/// (`std::str::from_utf8`, which accepts exactly the valid UTF-8 byte
/// strings and reads them as the characters they encode).
#[verifier::external_body]
pub(crate) fn from_utf8(bytes: &[u8]) -> (r: Option<&str>)
    ensures
        match r {
            None => utf8_of(bytes@) is None,
            Some(s) => utf8_of(bytes@) == Some(s@),
        },
{
    std::str::from_utf8(bytes).ok()
}

} // verus!
