//! Peer wire messages: their framing (a big-endian length, a type id, the
//! fields) and the extension messages that carry torrent metadata.
use crate::bencode::{
    bdict, bencode_dict_of, bencode_prefix_of, bint, entries_bytes, entries_view, find, int_value,
    key, lookup, parse_dict, parse_prefix, write_dict, BEntry, BVal, BValue,
};
use vstd::prelude::*;

verus! {

/// The largest piece of metadata one message carries.
pub const METADATA_PIECE_LEN: usize = 0x4000;

/// A peer wire message; payloads that follow the fixed fields (of
/// `Bitfield`, `Piece`, `Extended` and unknown messages) are counted in
/// `len` and read separately.
#[derive(Debug, Clone, Copy, PartialEq, Eq, Structural)]
pub enum Message {
    Choke,
    Unchoke,
    Interested,
    NotInterested,
    Have { index: u32 },
    Bitfield { len: u32 },
    Request { index: u32, begin: u32, len: u32 },
    Piece { index: u32, begin: u32, len: u32 },
    Cancel { index: u32, begin: u32, len: u32 },
    Extended { len: u32 },
    Unknown { id: u8, len: u32 },
}

/// The type id of a message; 255 for an unknown one.
pub open spec fn type_id_spec(m: Message) -> u8 {
    match m {
        Message::Choke => 0,
        Message::Unchoke => 1,
        Message::Interested => 2,
        Message::NotInterested => 3,
        Message::Have { .. } => 4,
        Message::Bitfield { .. } => 5,
        Message::Request { .. } => 6,
        Message::Piece { .. } => 7,
        Message::Cancel { .. } => 8,
        Message::Extended { .. } => 20,
        Message::Unknown { .. } => 255,
    }
}

/// The four big-endian bytes of `x`.
pub open spec fn be32(x: u32) -> Seq<u8> {
    seq![(x / 0x100_0000) as u8, (x / 0x1_0000 % 256) as u8, (x / 0x100 % 256) as u8, (x % 256) as u8]
}

/// The number held by four big-endian bytes.
pub open spec fn from_be32(b: Seq<u8>) -> u32 {
    (b[0] * 0x100_0000 + b[1] * 0x1_0000 + b[2] * 0x100 + b[3]) as u32
}

/// The framing of a message without payload, as `write` sends it; nothing
/// for the messages that carry one.
pub open spec fn frame_spec(m: Message) -> Seq<u8> {
    match m {
        Message::Choke | Message::Unchoke | Message::Interested | Message::NotInterested
        | Message::Extended { len: 0 } => be32(1) + seq![type_id_spec(m)],
        Message::Have { index } => be32(5) + seq![type_id_spec(m)] + be32(index),
        Message::Request { index, begin, len } | Message::Cancel { index, begin, len } => be32(13)
            + seq![type_id_spec(m)] + be32(index) + be32(begin) + be32(len),
        _ => Seq::empty(),
    }
}

/// Why the bytes of a message were refused.
#[derive(Debug, Clone, Copy, PartialEq, Eq, Structural)]
pub enum ReadError {
    /// The bytes end before the message does.
    Eof,
    InvalidChoke,
    InvalidUnchoke,
    InvalidInterested,
    InvalidNotInterested,
    InvalidHave,
    InvalidRequest,
    InvalidPiece,
    InvalidCancel,
}

/// What the start of `b` holds: nothing but a keep-alive (`None`), or a
/// message, with the number of bytes of its length, id and fixed fields.
pub open spec fn read_spec(b: Seq<u8>) -> Result<(Option<Message>, nat), ReadError> {
    if b.len() < 4 {
        Err(ReadError::Eof)
    } else if from_be32(b.subrange(0, 4)) == 0 {
        Ok((None, 4))
    } else if b.len() < 5 {
        Err(ReadError::Eof)
    } else {
        let len = from_be32(b.subrange(0, 4));
        let id = b[4];
        let f = |k: int| from_be32(b.subrange(5 + 4 * k, 9 + 4 * k));
        if id == 0 {
            if len != 1 { Err(ReadError::InvalidChoke) } else { Ok((Some(Message::Choke), 5)) }
        } else if id == 1 {
            if len != 1 { Err(ReadError::InvalidUnchoke) } else { Ok((Some(Message::Unchoke), 5)) }
        } else if id == 2 {
            if len != 1 { Err(ReadError::InvalidInterested) } else { Ok((Some(Message::Interested), 5)) }
        } else if id == 3 {
            if len != 1 {
                Err(ReadError::InvalidNotInterested)
            } else {
                Ok((Some(Message::NotInterested), 5))
            }
        } else if id == 4 {
            if len != 5 {
                Err(ReadError::InvalidHave)
            } else if b.len() < 9 {
                Err(ReadError::Eof)
            } else {
                Ok((Some(Message::Have { index: f(0) }), 9))
            }
        } else if id == 5 {
            Ok((Some(Message::Bitfield { len: (len - 1) as u32 }), 5))
        } else if id == 6 || id == 8 {
            if len != 13 {
                Err(if id == 6 { ReadError::InvalidRequest } else { ReadError::InvalidCancel })
            } else if b.len() < 17 {
                Err(ReadError::Eof)
            } else if id == 6 {
                Ok((Some(Message::Request { index: f(0), begin: f(1), len: f(2) }), 17))
            } else {
                Ok((Some(Message::Cancel { index: f(0), begin: f(1), len: f(2) }), 17))
            }
        } else if id == 7 {
            if len <= 9 {
                Err(ReadError::InvalidPiece)
            } else if b.len() < 13 {
                Err(ReadError::Eof)
            } else {
                Ok((Some(Message::Piece { index: f(0), begin: f(1), len: (len - 9) as u32 }), 13))
            }
        } else if id == 20 {
            Ok((Some(Message::Extended { len: (len - 1) as u32 }), 5))
        } else {
            Ok((Some(Message::Unknown { id, len: (len - 1) as u32 }), 5))
        }
    }
}

/// Appends the four big-endian bytes of `x`.
fn put_u32(out: &mut Vec<u8>, x: u32)
    ensures
        final(out)@ == old(out)@ + be32(x),
{
    out.push((x / 0x100_0000) as u8);
    out.push((x / 0x1_0000 % 256) as u8);
    out.push((x / 0x100 % 256) as u8);
    out.push((x % 256) as u8);
    assert(final(out)@ =~= old(out)@ + be32(x));
}

/// The number in four big-endian bytes of `b` from `off`.
fn get_u32(b: &[u8], off: usize) -> (r: u32)
    requires
        off + 4 <= b@.len(),
    ensures
        r == from_be32(b@.subrange(off as int, off + 4)),
{
    (b[off] as u32) * 0x100_0000 + (b[off + 1] as u32) * 0x1_0000 + (b[off + 2] as u32) * 0x100
        + (b[off + 3] as u32)
}

impl Message {
    /// The type id of the message.
    pub fn type_id(&self) -> (r: u8)
        ensures
            r == type_id_spec(*self),
    {
        match self {
            Message::Choke => 0,
            Message::Unchoke => 1,
            Message::Interested => 2,
            Message::NotInterested => 3,
            Message::Have { .. } => 4,
            Message::Bitfield { .. } => 5,
            Message::Request { .. } => 6,
            Message::Piece { .. } => 7,
            Message::Cancel { .. } => 8,
            Message::Extended { .. } => 20,
            Message::Unknown { .. } => u8::MAX,
        }
    }

    /// Appends the framing of a message without payload; nothing for the
    /// messages that carry one (see [`Message::write_buf`] and
    /// [`Message::write_ext`]).
    pub fn write(&self, out: &mut Vec<u8>)
        ensures
            final(out)@ == old(out)@ + frame_spec(*self),
    {
        match *self {
            Message::Choke | Message::Unchoke | Message::Interested | Message::NotInterested
            | Message::Extended { len: 0 } => {
                put_u32(out, 1);
                out.push(self.type_id());
            },
            Message::Have { index } => {
                put_u32(out, 5);
                out.push(self.type_id());
                put_u32(out, index);
            },
            Message::Request { index, begin, len } | Message::Cancel { index, begin, len } => {
                put_u32(out, 13);
                out.push(self.type_id());
                put_u32(out, index);
                put_u32(out, begin);
                put_u32(out, len);
            },
            _ => {},
        }
        assert(out@ =~= old(out)@ + frame_spec(*self));
    }

    /// Appends a `Bitfield` or `Piece` message with its payload `data`;
    /// nothing for the other messages.
    pub fn write_buf(&self, out: &mut Vec<u8>, data: &[u8])
        requires
            data@.len() + 9 <= u32::MAX,
        ensures
            final(out)@ == old(out)@ + match *self {
                Message::Bitfield { .. } => be32((data@.len() + 1) as u32) + seq![5u8] + data@,
                Message::Piece { index, begin, .. } => be32((data@.len() + 9) as u32)
                    + seq![7u8] + be32(index) + be32(begin) + data@,
                _ => Seq::empty(),
            },
    {
        let n = data.len() as u32;
        match *self {
            Message::Bitfield { .. } => {
                put_u32(out, n + 1);
                out.push(self.type_id());
                extend(out, data);
            },
            Message::Piece { index, begin, .. } => {
                put_u32(out, n + 9);
                out.push(self.type_id());
                put_u32(out, index);
                put_u32(out, begin);
                extend(out, data);
            },
            _ => {},
        }
        assert(out@ =~= old(out)@ + match *self {
            Message::Bitfield { .. } => be32((data@.len() + 1) as u32) + seq![5u8] + data@,
            Message::Piece { index, begin, .. } => be32((data@.len() + 9) as u32) + seq![7u8]
                + be32(index) + be32(begin) + data@,
            _ => Seq::empty(),
        });
    }

    /// Appends an `Extended` message of extension `id` with payload `data`;
    /// nothing for the other messages.
    pub fn write_ext(&self, out: &mut Vec<u8>, id: u8, data: &[u8])
        requires
            data@.len() + 2 <= u32::MAX,
        ensures
            final(out)@ == old(out)@ + match *self {
                Message::Extended { .. } => be32((data@.len() + 2) as u32) + seq![20u8, id] + data@,
                _ => Seq::empty(),
            },
    {
        if let Message::Extended { .. } = self {
            put_u32(out, data.len() as u32 + 2);
            out.push(self.type_id());
            out.push(id);
            extend(out, data);
        }
        assert(out@ =~= old(out)@ + match *self {
            Message::Extended { .. } => be32(((data@.len() as u32) + 2) as u32) + seq![20u8, id] + data@,
            _ => Seq::empty(),
        });
    }

    /// How many payload bytes follow the fixed fields of the message (those
    /// a reader that ignores the message skips).
    pub fn payload_len(&self) -> (r: u32)
        ensures
            r == match *self {
                Message::Piece { len, .. } => len,
                Message::Bitfield { len } => len,
                Message::Extended { len } => len,
                Message::Unknown { len, .. } => len,
                _ => 0,
            },
    {
        match *self {
            Message::Piece { len, .. } | Message::Bitfield { len } | Message::Extended { len } | Message::Unknown {
                len,
                ..
            } => len,
            _ => 0,
        }
    }

    /// Reads the message at the start of `b`: `None` for a keep-alive, with
    /// the number of bytes of its length, id and fixed fields (a payload
    /// follows them and is read separately).
    pub fn read(b: &[u8]) -> (r: Result<(Option<Message>, usize), ReadError>)
        ensures
            match r {
                Ok((m, n)) => read_spec(b@) == Ok::<(Option<Message>, nat), ReadError>((m, n as nat)),
                Err(e) => read_spec(b@) == Err::<(Option<Message>, nat), ReadError>(e),
            },
    {
        if b.len() < 4 {
            return Err(ReadError::Eof);
        }
        let len = get_u32(b, 0);
        if len == 0 {
            return Ok((None, 4));
        }
        if b.len() < 5 {
            return Err(ReadError::Eof);
        }
        let id = b[4];
        let msg = match id {
            0 => {
                if len != 1 {
                    return Err(ReadError::InvalidChoke);
                }
                (Message::Choke, 5)
            },
            1 => {
                if len != 1 {
                    return Err(ReadError::InvalidUnchoke);
                }
                (Message::Unchoke, 5)
            },
            2 => {
                if len != 1 {
                    return Err(ReadError::InvalidInterested);
                }
                (Message::Interested, 5)
            },
            3 => {
                if len != 1 {
                    return Err(ReadError::InvalidNotInterested);
                }
                (Message::NotInterested, 5)
            },
            4 => {
                if len != 5 {
                    return Err(ReadError::InvalidHave);
                }
                if b.len() < 9 {
                    return Err(ReadError::Eof);
                }
                (Message::Have { index: get_u32(b, 5) }, 9)
            },
            5 => (Message::Bitfield { len: len - 1 }, 5),
            6 => {
                if len != 13 {
                    return Err(ReadError::InvalidRequest);
                }
                if b.len() < 17 {
                    return Err(ReadError::Eof);
                }
                (Message::Request { index: get_u32(b, 5), begin: get_u32(b, 9), len: get_u32(b, 13) }, 17)
            },
            7 => {
                if len <= 9 {
                    return Err(ReadError::InvalidPiece);
                }
                if b.len() < 13 {
                    return Err(ReadError::Eof);
                }
                (Message::Piece { index: get_u32(b, 5), begin: get_u32(b, 9), len: len - 9 }, 13)
            },
            8 => {
                if len != 13 {
                    return Err(ReadError::InvalidCancel);
                }
                if b.len() < 17 {
                    return Err(ReadError::Eof);
                }
                (Message::Cancel { index: get_u32(b, 5), begin: get_u32(b, 9), len: get_u32(b, 13) }, 17)
            },
            20 => (Message::Extended { len: len - 1 }, 5),
            id => (Message::Unknown { id, len: len - 1 }, 5),
        };
        Ok((Some(msg.0), msg.1))
    }
}

/// Appends the bytes of `data`.
fn extend(out: &mut Vec<u8>, data: &[u8])
    ensures
        final(out)@ == old(out)@ + data@,
{
    let mut i: usize = 0;
    while i < data.len()
        invariant
            i <= data@.len(),
            out@ == old(out)@ + data@.take(i as int),
        decreases data@.len() - i,
    {
        out.push(data[i]);
        i = i + 1;
        assert(out@ =~= old(out)@ + data@.take(i as int));
    }
    assert(data@.take(data@.len() as int) =~= data@);
}

/// Why a payload was refused.
#[derive(Debug, Clone, Copy, PartialEq, Eq, Structural)]
pub enum PayloadError {
    /// A piece that would start past the end of the buffer.
    BeginTooHigh,
    /// A payload that does not fit the buffer.
    TooLarge,
    /// The message does not carry that payload.
    WrongMessage,
    /// An extended message whose payload is not bencoded data.
    InvalidBencode,
}

impl Message {
    /// Copies the payload `data` of a `Piece` message into `buf` at the
    /// piece's offset; the payload is the piece's `len` bytes.
    pub fn read_piece(&self, data: &[u8], buf: &mut [u8]) -> (r: Result<(), PayloadError>)
        requires
            *self matches Message::Piece { len, .. } ==> data@.len() == len,
        ensures
            match *self {
                Message::Piece { begin, len, .. } => {
                    &&& (begin > old(buf)@.len()) ==> r == Err::<(), PayloadError>(PayloadError::BeginTooHigh)
                        && final(buf)@ == old(buf)@
                    &&& (begin <= old(buf)@.len() && begin + len > old(buf)@.len()) ==> r == Err::<
                        (),
                        PayloadError,
                    >(PayloadError::TooLarge) && final(buf)@ == old(buf)@
                    &&& (begin + len <= old(buf)@.len()) ==> r is Ok && final(buf)@ == old(buf)@.subrange(
                        0,
                        begin as int,
                    ) + data@ + old(buf)@.subrange(begin + len, old(buf)@.len() as int)
                },
                _ => r == Err::<(), PayloadError>(PayloadError::WrongMessage) && final(buf)@ == old(buf)@,
            },
    {
        match *self {
            Message::Piece { begin, len, .. } => {
                let begin = begin as usize;
                if begin > buf.len() {
                    return Err(PayloadError::BeginTooHigh);
                }
                let len = len as usize;
                if len > buf.len() - begin {
                    return Err(PayloadError::TooLarge);
                }
                let mut i: usize = 0;
                let blen = buf.len();
                while i < len
                    invariant
                        i <= len,
                        len == data@.len(),
                        blen == buf@.len(),
                        begin + len <= buf@.len(),
                        buf@.len() == old(buf)@.len(),
                        forall|j: int| 0 <= j < begin ==> buf@[j] == old(buf)@[j],
                        forall|j: int| begin + len <= j < buf@.len() ==> buf@[j] == old(buf)@[j],
                        forall|j: int| 0 <= j < i ==> buf@[begin + j] == data@[j],
                    decreases len - i,
                {
                    buf[begin + i] = data[i];
                    i = i + 1;
                }
                assert(buf@ =~= old(buf)@.subrange(0, begin as int) + data@ + old(buf)@.subrange(
                    begin + len,
                    old(buf)@.len() as int,
                ));
                Ok(())
            },
            _ => Err(PayloadError::WrongMessage),
        }
    }

    /// Copies the payload `data` of a `Bitfield` message to the start of
    /// `buf`; the payload is the message's `len` bytes.
    pub fn read_bitfield(&self, data: &[u8], buf: &mut [u8]) -> (r: Result<(), PayloadError>)
        requires
            *self matches Message::Bitfield { len } ==> data@.len() == len,
        ensures
            match *self {
                Message::Bitfield { len } => {
                    &&& (len > old(buf)@.len()) ==> r == Err::<(), PayloadError>(PayloadError::TooLarge)
                        && final(buf)@ == old(buf)@
                    &&& (len <= old(buf)@.len()) ==> r is Ok && final(buf)@ == data@ + old(buf)@.subrange(
                        len as int,
                        old(buf)@.len() as int,
                    )
                },
                _ => r == Err::<(), PayloadError>(PayloadError::WrongMessage) && final(buf)@ == old(buf)@,
            },
    {
        match *self {
            Message::Bitfield { len } => {
                let len = len as usize;
                if len > buf.len() {
                    return Err(PayloadError::TooLarge);
                }
                let mut i: usize = 0;
                while i < len
                    invariant
                        i <= len,
                        len == data@.len(),
                        len <= buf@.len(),
                        buf@.len() == old(buf)@.len(),
                        forall|j: int| len <= j < buf@.len() ==> buf@[j] == old(buf)@[j],
                        forall|j: int| 0 <= j < i ==> buf@[j] == data@[j],
                    decreases len - i,
                {
                    buf[i] = data[i];
                    i = i + 1;
                }
                assert(buf@ =~= data@ + old(buf)@.subrange(len as int, old(buf)@.len() as int));
                Ok(())
            },
            _ => Err(PayloadError::WrongMessage),
        }
    }

    /// Reads the payload `data` of an `Extended` message: the extension id,
    /// a bencoded value, and what follows it.
    pub fn read_ext(&self, data: &[u8]) -> (r: Result<ExtendedMessage, PayloadError>)
        requires
            data@.len() >= 1,
        ensures
            (*self is Extended) ==> match r {
                Ok(m) => ext_spec(data@) == Some((m.id, m.value@, m.rest@)),
                Err(e) => e == PayloadError::InvalidBencode && ext_spec(data@) is None,
            },
            !(*self is Extended) ==> r == Err::<ExtendedMessage, PayloadError>(PayloadError::WrongMessage),
    {
        match *self {
            Message::Extended { .. } => match ExtendedMessage::new(data) {
                Ok(m) => Ok(m),
                Err(e) => Err(e),
            },
            _ => Err(PayloadError::WrongMessage),
        }
    }
}

/// An extension message: the extension id, the bencoded value that opens
/// the payload, and the bytes after it.
#[derive(Debug)]
pub struct ExtendedMessage {
    pub id: u8,
    pub value: BValue,
    pub rest: Vec<u8>,
}

/// What an extension payload holds: its id, the value the parser finds
/// after it, and the bytes past that value.
pub open spec fn ext_spec(data: Seq<u8>) -> Option<(u8, BVal, Seq<u8>)> {
    match bencode_prefix_of(data.skip(1)) {
        None => None,
        Some((v, n)) => Some((data[0], v, data.skip(1 + n as int))),
    }
}

/// The integer under key `k`, if that is what it holds.
pub open spec fn int_at(es: Seq<(Seq<u8>, BVal)>, k: Seq<u8>) -> Option<int> {
    match lookup(es, k) {
        Some(BVal::Int(i)) => Some(i),
        _ => None,
    }
}

/// The encoded dictionary under key `k`, if that is what it holds.
pub open spec fn dict_at(es: Seq<(Seq<u8>, BVal)>, k: Seq<u8>) -> Option<Seq<u8>> {
    match lookup(es, k) {
        Some(BVal::Dict(b)) => Some(b),
        _ => None,
    }
}

/// The entries of a value, when the parser reads it as a dictionary.
pub open spec fn dict_entries(v: BVal) -> Option<Seq<(Seq<u8>, BVal)>> {
    match v {
        BVal::Dict(raw) => match bencode_dict_of(raw) {
            Some(Some(es)) => Some(es),
            _ => None,
        },
        _ => None,
    }
}

/// The metadata announcement of an extension handshake: the extension id
/// under `m`/`ut_metadata` (cut to a byte) and the size under
/// `metadata_size` (as a machine word).
pub open spec fn metadata_spec(v: BVal) -> Option<(u8, usize)> {
    match dict_entries(v) {
        None => None,
        Some(es) => match dict_at(es, key("m")) {
            None => None,
            Some(mraw) => match bencode_dict_of(mraw) {
                Some(Some(ms)) => match int_at(ms, key("ut_metadata")) {
                    None => None,
                    Some(id) => match int_at(es, key("metadata_size")) {
                        None => None,
                        Some(len) => Some((id as u8, len as usize)),
                    },
                },
                _ => None,
            },
        },
    }
}

/// Why a metadata data message was refused.
#[derive(Debug, Clone, Copy, PartialEq, Eq, Structural)]
pub enum DataError {
    NotADict,
    NoMsgType,
    NotData,
    NoPiece,
    IncorrectPiece,
    TooLarge,
}

/// The outcome of reading a metadata data message for piece `expected`.
pub open spec fn data_spec(v: BVal, rest: Seq<u8>, expected: int) -> Result<Seq<u8>, DataError> {
    match dict_entries(v) {
        None => Err(DataError::NotADict),
        Some(es) => match int_at(es, key("msg_type")) {
            None => Err(DataError::NoMsgType),
            Some(t) => if t != 1 {
                Err(DataError::NotData)
            } else {
                match int_at(es, key("piece")) {
                    None => Err(DataError::NoPiece),
                    Some(p) => if p != expected {
                        Err(DataError::IncorrectPiece)
                    } else if rest.len() > METADATA_PIECE_LEN {
                        Err(DataError::TooLarge)
                    } else {
                        Ok(rest)
                    },
                }
            },
        },
    }
}

/// The integer under key `k`.
pub fn get_int(es: &Vec<BEntry>, k: &str) -> (r: Option<i64>)
    ensures
        match r {
            None => int_at(entries_view(es@), key(k)) is None,
            Some(i) => int_at(entries_view(es@), key(k)) == Some(i as int),
        },
{
    match find(es, k.as_bytes()) {
        Some(BValue::Int(i)) => Some(*i),
        _ => None,
    }
}

/// The entries of a value that is a dictionary.
fn entries_of(v: &BValue) -> (r: Option<Vec<BEntry>>)
    ensures
        match r {
            None => dict_entries(v@) is None,
            Some(es) => dict_entries(v@) == Some(entries_view(es@)),
        },
{
    match v {
        BValue::Dict(raw) => match parse_dict(raw.as_slice()) {
            Some(Some(es)) => Some(es),
            _ => None,
        },
        _ => None,
    }
}

impl ExtendedMessage {
    /// Reads an extension payload: the id byte, then one bencoded value,
    /// then the rest.
    pub fn new(data: &[u8]) -> (r: Result<ExtendedMessage, PayloadError>)
        requires
            data@.len() >= 1,
        ensures
            match r {
                Ok(m) => ext_spec(data@) == Some((m.id, m.value@, m.rest@)),
                Err(e) => e == PayloadError::InvalidBencode && ext_spec(data@) is None,
            },
    {
        let id = data[0];
        let tail = vstd::slice::slice_subrange(data, 1, data.len());
        assert(tail@ =~= data@.skip(1));
        match parse_prefix(tail) {
            None => Err(PayloadError::InvalidBencode),
            Some((value, i)) => {
                let rest = vstd::slice::slice_subrange(data, i + 1, data.len());
                assert(rest@ =~= data@.skip(1 + i));
                Ok(ExtendedMessage { id, value, rest: vstd::slice::slice_to_vec(rest) })
            },
        }
    }

    /// Whether this is the extension handshake (id zero).
    pub fn is_handshake(&self) -> (r: bool)
        ensures
            r == (self.id == 0),
    {
        self.id == 0
    }

    /// The bencoded value of the message.
    pub fn node(&self) -> (r: &BValue)
        ensures
            r == self.value,
    {
        &self.value
    }

    /// The metadata extension id and size a handshake announces.
    pub fn metadata(&self) -> (r: Option<Metadata>)
        ensures
            match r {
                None => metadata_spec(self.value@) is None,
                Some(m) => metadata_spec(self.value@) == Some((m.id, m.len)),
            },
    {
        let es = entries_of(&self.value)?;
        let mraw = match find(&es, "m".as_bytes()) {
            Some(BValue::Dict(raw)) => raw,
            _ => {
                return None;
            },
        };
        let ms = match parse_dict(mraw.as_slice()) {
            Some(Some(ms)) => ms,
            _ => {
                return None;
            },
        };
        let id = get_int(&ms, "ut_metadata")?;
        let len = get_int(&es, "metadata_size")?;
        Some(Metadata { id: id as u8, len: len as usize })
    }

    /// The metadata piece this message carries, if it is the data of piece
    /// `expected_piece` and at most 16 KiB long.
    pub fn data(&self, expected_piece: i64) -> (r: Result<&[u8], DataError>)
        ensures
            match r {
                Ok(b) => data_spec(self.value@, self.rest@, expected_piece as int) == Ok::<
                    Seq<u8>,
                    DataError,
                >(b@),
                Err(e) => data_spec(self.value@, self.rest@, expected_piece as int) == Err::<
                    Seq<u8>,
                    DataError,
                >(e),
            },
    {
        let es = match entries_of(&self.value) {
            None => {
                return Err(DataError::NotADict);
            },
            Some(es) => es,
        };
        let msg_type = match get_int(&es, "msg_type") {
            None => {
                return Err(DataError::NoMsgType);
            },
            Some(t) => t,
        };
        if msg_type != 1 {
            return Err(DataError::NotData);
        }
        let piece = match get_int(&es, "piece") {
            None => {
                return Err(DataError::NoPiece);
            },
            Some(p) => p,
        };
        if piece != expected_piece {
            return Err(DataError::IncorrectPiece);
        }
        if self.rest.len() > METADATA_PIECE_LEN {
            return Err(DataError::TooLarge);
        }
        Ok(self.rest.as_slice())
    }
}

/// The metadata extension of a peer: its id for the extension and the
/// metadata size.
#[derive(Debug, Clone, Copy, PartialEq, Eq, Structural)]
pub struct Metadata {
    pub id: u8,
    pub len: usize,
}

/// The messages of the metadata extension.
#[derive(Debug, Clone, Copy, PartialEq, Eq, Structural)]
pub enum MetadataMsg {
    Handshake(u8),
    Request(i64),
    Reject(i64),
    Data(i64, i64),
}

impl MetadataMsg {
    /// The bencoding of the message.
    pub open spec fn spec_bytes(&self) -> Seq<u8> {
        match *self {
            MetadataMsg::Handshake(id) => bdict(
                seq![
                    (key("m"), bdict(seq![(key("ut_metadata"), bint(id as int))])),
                    (key("p"), bint(6881)),
                    (key("reqq"), bint(500)),
                ],
            ),
            MetadataMsg::Request(piece) => bdict(
                seq![(key("msg_type"), bint(0)), (key("piece"), bint(piece as int))],
            ),
            MetadataMsg::Reject(piece) => bdict(
                seq![(key("msg_type"), bint(2)), (key("piece"), bint(piece as int))],
            ),
            MetadataMsg::Data(piece, total) => bdict(
                seq![
                    (key("msg_type"), bint(1)),
                    (key("piece"), bint(piece as int)),
                    (key("total_size"), bint(total as int)),
                ],
            ),
        }
    }

    /// The bencoded message.
    pub fn encode_to_vec(&self) -> (r: Vec<u8>)
        ensures
            r@ == self.spec_bytes(),
    {
        let entries = match *self {
            MetadataMsg::Handshake(id) => {
                let mut m: Vec<u8> = Vec::new();
                let inner = vec![("ut_metadata", int_value(id as i64))];
                write_dict(&mut m, &inner);
                assert(entries_bytes(inner@) =~= seq![(key("ut_metadata"), bint(id as int))]);
                vec![("m", m), ("p", int_value(6881)), ("reqq", int_value(500))]
            },
            MetadataMsg::Request(piece) => vec![("msg_type", int_value(0)), ("piece", int_value(piece))],
            MetadataMsg::Reject(piece) => vec![("msg_type", int_value(2)), ("piece", int_value(piece))],
            MetadataMsg::Data(piece, total) => vec![
                ("msg_type", int_value(1)),
                ("piece", int_value(piece)),
                ("total_size", int_value(total)),
            ],
        };
        let mut out: Vec<u8> = Vec::new();
        write_dict(&mut out, &entries);
        proof {
            match *self {
                MetadataMsg::Handshake(id) => {
                    assert(entries_bytes(entries@) =~= seq![
                        (key("m"), bdict(seq![(key("ut_metadata"), bint(id as int))])),
                        (key("p"), bint(6881)),
                        (key("reqq"), bint(500)),
                    ]);
                },
                MetadataMsg::Request(piece) => {
                    assert(entries_bytes(entries@) =~= seq![(key("msg_type"), bint(0)), (key("piece"), bint(piece as int))]);
                },
                MetadataMsg::Reject(piece) => {
                    assert(entries_bytes(entries@) =~= seq![(key("msg_type"), bint(2)), (key("piece"), bint(piece as int))]);
                },
                MetadataMsg::Data(piece, total) => {
                    assert(entries_bytes(entries@) =~= seq![
                        (key("msg_type"), bint(1)),
                        (key("piece"), bint(piece as int)),
                        (key("total_size"), bint(total as int)),
                    ]);
                },
            }
        }
        out
    }
}

/// Four big-endian bytes give back their number.
pub proof fn lemma_be32(x: u32)
    ensures
        from_be32(be32(x)) == x,
        be32(x).len() == 4,
{
    let a = x / 0x100_0000;
    let b = x / 0x1_0000 % 256;
    let c = x / 0x100 % 256;
    let d = x % 256;
    assert(x == a * 0x100_0000 + b * 0x1_0000 + c * 0x100 + d) by (bit_vector)
        requires
            a == x / 0x100_0000,
            b == x / 0x1_0000 % 256,
            c == x / 0x100 % 256,
            d == x % 256,
    ;
}

/// Reading back what `write` wrote gives the message, and takes exactly
/// the bytes written, whatever follows them.
pub proof fn law_read_after_write(m: Message, tail: Seq<u8>)
    requires
        frame_spec(m).len() > 0,
    ensures
        read_spec(frame_spec(m) + tail) == Ok::<(Option<Message>, nat), ReadError>(
            (Some(m), frame_spec(m).len()),
        ),
{
    let b = frame_spec(m) + tail;
    lemma_be32(1);
    lemma_be32(5);
    lemma_be32(13);
    match m {
        Message::Have { index } => {
            lemma_be32(index);
            assert(b.subrange(0, 4) =~= be32(5));
            assert(b.subrange(5, 9) =~= be32(index));
        },
        Message::Request { index, begin, len } | Message::Cancel { index, begin, len } => {
            lemma_be32(index);
            lemma_be32(begin);
            lemma_be32(len);
            assert(b.subrange(0, 4) =~= be32(13));
            assert(b.subrange(5, 9) =~= be32(index));
            assert(b.subrange(9, 13) =~= be32(begin));
            assert(b.subrange(13, 17) =~= be32(len));
        },
        _ => {
            assert(b.subrange(0, 4) =~= be32(1));
        },
    }
}


/// Reading back what `write_buf` and `write_ext` wrote gives the message
/// with the length of what follows its fixed fields, and those bytes are
/// the payload written (the extension id, then the data, for an extended
/// message).
pub proof fn law_read_after_write_payload(index: u32, begin: u32, id: u8, data: Seq<u8>, tail: Seq<u8>)
    requires
        data.len() + 9 <= u32::MAX,
    ensures
        ({
            let w = be32((data.len() + 1) as u32) + seq![5u8] + data;
            &&& read_spec(w + tail) == Ok::<(Option<Message>, nat), ReadError>(
                (Some(Message::Bitfield { len: data.len() as u32 }), 5),
            )
            &&& (w + tail).subrange(5, 5 + data.len() as int) == data
        }),
        data.len() > 0 ==> ({
            let w = be32((data.len() + 9) as u32) + seq![7u8] + be32(index) + be32(begin) + data;
            &&& read_spec(w + tail) == Ok::<(Option<Message>, nat), ReadError>(
                (Some(Message::Piece { index, begin, len: data.len() as u32 }), 13),
            )
            &&& (w + tail).subrange(13, 13 + data.len() as int) == data
        }),
        ({
            let w = be32((data.len() + 2) as u32) + seq![20u8, id] + data;
            &&& read_spec(w + tail) == Ok::<(Option<Message>, nat), ReadError>(
                (Some(Message::Extended { len: (data.len() + 1) as u32 }), 5),
            )
            &&& (w + tail).subrange(5, 6 + data.len() as int) == seq![id] + data
        }),
{
    let n: int = data.len() as int;
    lemma_be32((n + 1) as u32);
    lemma_be32((n + 9) as u32);
    lemma_be32((n + 2) as u32);
    lemma_be32(index);
    lemma_be32(begin);
    let w1 = be32((n + 1) as u32) + seq![5u8] + data;
    assert((w1 + tail).subrange(0, 4) =~= be32((n + 1) as u32));
    assert((w1 + tail).subrange(5, 5 + n) =~= data);
    let w2 = be32((n + 9) as u32) + seq![7u8] + be32(index) + be32(begin) + data;
    assert((w2 + tail).subrange(0, 4) =~= be32((n + 9) as u32));
    assert((w2 + tail).subrange(5, 9) =~= be32(index));
    assert((w2 + tail).subrange(9, 13) =~= be32(begin));
    assert((w2 + tail).subrange(13, 13 + n) =~= data);
    let w3 = be32((n + 2) as u32) + seq![20u8, id] + data;
    assert((w3 + tail).subrange(0, 4) =~= be32((n + 2) as u32));
    assert((w3 + tail).subrange(5, 6 + n) =~= seq![id] + data);
}

} // verus!
