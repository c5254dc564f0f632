//! Fetching a torrent's metadata from a peer over the metadata extension,
//! and reading what it describes.
use crate::bencode::{bencode_dict_of, key, parse_dict, BVal};
use crate::dht::msg::{bytes_at, get_bytes};
use crate::msg::{data_spec, get_int, int_at, metadata_spec, DataError, ExtendedMessage, MetadataMsg};
use crate::urltext::{from_utf8, utf8_of};
use vstd::prelude::*;

verus! {

/// What an info dictionary tells of a torrent.
#[derive(Debug)]
pub struct TorrentInfo {
    pub piece_len: usize,
    pub length: usize,
    pub piece_hashes: Vec<u8>,
    pub name: String,
}

/// The name under `name`: its text when it is a UTF-8 byte string, else
/// empty.
pub open spec fn name_of(es: Seq<(Seq<u8>, BVal)>) -> Seq<char> {
    match bytes_at(es, key("name")) {
        Some(b) => match utf8_of(b) {
            Some(t) => t,
            None => Seq::empty(),
        },
        None => Seq::empty(),
    }
}

/// What an info dictionary tells: its `length`, `name`, `piece length` and
/// `pieces` (the integers as machine words); `None` when it is no
/// dictionary or misses one of them but the name.
pub open spec fn info_spec(data: Seq<u8>) -> Option<(usize, Seq<char>, usize, Seq<u8>)> {
    match bencode_dict_of(data) {
        Some(Some(es)) => match (int_at(es, key("length")), int_at(es, key("piece length")), bytes_at(es, key("pieces"))) {
            (Some(len), Some(pl), Some(p)) => Some((len as usize, name_of(es), pl as usize, p)),
            _ => None,
        },
        _ => None,
    }
}

/// Reads an info dictionary.
pub fn read_info(data: &[u8]) -> (r: Option<TorrentInfo>)
    ensures
        match r {
            Some(t) => info_spec(data@) == Some((t.length, t.name@, t.piece_len, t.piece_hashes@)),
            None => info_spec(data@) is None,
        },
{
    let es = match parse_dict(data) {
        Some(Some(es)) => es,
        _ => {
            return None;
        },
    };
    let length = match get_int(&es, "length") {
        Some(l) => l as usize,
        None => {
            return None;
        },
    };
    let name = match get_bytes(&es, "name") {
        Some(b) => match from_utf8(b.as_slice()) {
            Some(t) => t.to_owned(),
            None => String::new(),
        },
        None => String::new(),
    };
    let piece_len = match get_int(&es, "piece length") {
        Some(l) => l as usize,
        None => {
            return None;
        },
    };
    let piece_hashes = match get_bytes(&es, "pieces") {
        Some(b) => b.clone(),
        None => {
            return None;
        },
    };
    Some(TorrentInfo { piece_len, length, piece_hashes, name })
}

/// Why fetching metadata from a peer stopped.
#[derive(Debug, Clone, Copy, PartialEq, Eq, Structural)]
pub enum FetchError {
    /// The first extension message was not the extension handshake.
    ExpectedExtendedHandshake,
    /// The peer does not offer the metadata extension.
    NoMetadataExtension,
    /// An extension message of another extension came.
    ExpectedMetadataMessage,
    /// The data message was refused.
    Data(DataError),
    /// The data is longer than what is still missing.
    IncorrectDataLength,
}

/// A metadata fetch under way: the peer's id for the extension, the bytes
/// still missing, the next piece to ask for and the bytes received.
#[derive(Debug)]
pub struct MetadataFetch {
    pub id: u8,
    pub remaining: usize,
    pub piece: i64,
    pub buf: Vec<u8>,
}

impl MetadataFetch {
    /// Starts from the peer's first extension message, which must be the
    /// extension handshake offering the metadata extension.
    pub fn start(ext: &ExtendedMessage) -> (r: Result<MetadataFetch, FetchError>)
        ensures
            ext.id != 0 ==> r == Err::<MetadataFetch, FetchError>(FetchError::ExpectedExtendedHandshake),
            ext.id == 0 && metadata_spec(ext.value@) is None ==> r == Err::<MetadataFetch, FetchError>(
                FetchError::NoMetadataExtension,
            ),
            ext.id == 0 && metadata_spec(ext.value@) is Some ==> (r matches Ok(f) && (f.id, f.remaining)
                == metadata_spec(ext.value@)->0 && f.piece == 0 && f.buf@.len() == 0),
    {
        if !ext.is_handshake() {
            return Err(FetchError::ExpectedExtendedHandshake);
        }
        match ext.metadata() {
            None => Err(FetchError::NoMetadataExtension),
            Some(m) => Ok(MetadataFetch { id: m.id, remaining: m.len, piece: 0, buf: Vec::new() }),
        }
    }

    /// Whether all the metadata came.
    pub fn is_done(&self) -> (r: bool)
        ensures
            r == (self.remaining == 0),
    {
        self.remaining == 0
    }

    /// The request to send next: for the next piece.
    pub fn next_request(&self) -> (r: MetadataMsg)
        ensures
            r == MetadataMsg::Request(self.piece),
    {
        MetadataMsg::Request(self.piece)
    }

    /// Takes in an extension message answering a request: data of this
    /// extension, of the piece asked for, no longer than what is missing,
    /// is appended and the next piece is asked for.
    pub fn on_ext(&mut self, ext: &ExtendedMessage) -> (r: Result<(), FetchError>)
        requires
            old(self).piece < i64::MAX,
        ensures
            ext.id != old(self).id ==> r == Err::<(), FetchError>(FetchError::ExpectedMetadataMessage)
                && *final(self) == *old(self),
            ext.id == old(self).id ==> match data_spec(ext.value@, ext.rest@, old(self).piece as int) {
                Err(e) => r == Err::<(), FetchError>(FetchError::Data(e)) && *final(self) == *old(self),
                Ok(d) => if d.len() > old(self).remaining {
                    r == Err::<(), FetchError>(FetchError::IncorrectDataLength) && *final(self) == *old(self)
                } else {
                    &&& r is Ok
                    &&& final(self).id == old(self).id
                    &&& final(self).buf@ == old(self).buf@ + d
                    &&& final(self).remaining == old(self).remaining - d.len()
                    &&& final(self).piece == old(self).piece + 1
                },
            },
    {
        if ext.id != self.id {
            return Err(FetchError::ExpectedMetadataMessage);
        }
        let data = match ext.data(self.piece) {
            Ok(d) => d,
            Err(e) => {
                return Err(FetchError::Data(e));
            },
        };
        if data.len() > self.remaining {
            return Err(FetchError::IncorrectDataLength);
        }
        let mut i: usize = 0;
        let ghost buf0 = self.buf@;
        let ghost id0 = self.id;
        let ghost remaining0 = self.remaining;
        let ghost piece0 = self.piece;
        while i < data.len()
            invariant
                i <= data@.len(),
                self.buf@ == buf0 + data@.take(i as int),
                self.id == id0,
                self.remaining == remaining0,
                self.piece == piece0,
            decreases data@.len() - i,
        {
            self.buf.push(data[i]);
            assert(data@.take(i + 1) =~= data@.take(i as int).push(data@[i as int]));
            i = i + 1;
        }
        assert(data@.take(data@.len() as int) =~= data@);
        self.remaining = self.remaining - data.len();
        self.piece = self.piece + 1;
        Ok(())
    }
}

} // verus!
