//! KRPC messages of the DHT: the queries we send, bencoded, and the
//! messages we receive, read from their bencoding.
use crate::bencode::{
    add_int, add_str, bdict, bencode_dict_of, bint, bstr, bytes_eq, bytes_value, entries_bytes,
    entries_view, find, int_value, key, lookup, parse_dict, str_value, write_dict, BEntry, BVal,
    BValue,
};
use crate::dht::id::NodeId;
use vstd::prelude::*;

verus! {

/// A transaction id, which pairs a reply with its query.
#[derive(Debug, Copy, Clone, PartialEq, Eq, PartialOrd, Ord, Hash)]
pub struct TxnId(pub u16);

/// The two big-endian bytes of a transaction id.
pub open spec fn txn_bytes(t: u16) -> Seq<u8> {
    seq![(t / 256) as u8, (t % 256) as u8]
}

impl TxnId {
    /// Returns this id and steps it to the next one, wrapping after the
    /// largest.
    pub fn next_id(&mut self) -> (r: Self)
        ensures
            r == *old(self),
            final(self).0 == if old(self).0 == u16::MAX { 0 } else { (old(self).0 + 1) as u16 },
    {
        let out = *self;
        self.0 = self.0.wrapping_add(1);
        out
    }

    /// The id bencoded as a two-byte string.
    pub fn encode_to_vec(&self) -> (r: Vec<u8>)
        ensures
            r@ == bstr(txn_bytes(self.0)),
    {
        let b: [u8; 2] = [(self.0 / 256) as u8, (self.0 % 256) as u8];
        assert(b@ =~= txn_bytes(self.0));
        bytes_value(&b)
    }
}

/// The kinds of query.
#[derive(Debug, Clone, Copy, PartialEq, Eq, Structural)]
pub enum QueryKind {
    Ping,
    FindNode,
    GetPeers,
    AnnouncePeer,
}

/// The bencoding of a query: `a` holds the arguments, `q` the method, `t`
/// the transaction id and `y` the marker of a query.
pub open spec fn query_bytes(txn: u16, method: &str, args: Seq<(Seq<u8>, Seq<u8>)>) -> Seq<u8> {
    bdict(
        seq![
            (key("a"), bdict(args)),
            (key("q"), bstr(key(method))),
            (key("t"), bstr(txn_bytes(txn))),
            (key("y"), bstr(key("q"))),
        ],
    )
}

/// Writes a query from its encoded arguments.
fn write_query(txn_id: TxnId, method: &str, args: Vec<(&str, Vec<u8>)>) -> (r: Vec<u8>)
    ensures
        r@ == query_bytes(txn_id.0, method, entries_bytes(args@)),
{
    let mut a: Vec<u8> = Vec::new();
    write_dict(&mut a, &args);
    let entries = vec![("a", a), ("q", str_value(method)), ("t", txn_id.encode_to_vec()), ("y", str_value("q"))];
    let mut out: Vec<u8> = Vec::new();
    write_dict(&mut out, &entries);
    proof {
        assert(entries_bytes(entries@) =~= seq![
            (key("a"), bdict(entries_bytes(args@))),
            (key("q"), bstr(key(method))),
            (key("t"), bstr(txn_bytes(txn_id.0))),
            (key("y"), bstr(key("q"))),
        ]);
        assert(out@ =~= query_bytes(txn_id.0, method, entries_bytes(args@)));
    }
    out
}

/// A `ping` query.
pub struct Ping<'a> {
    pub txn_id: TxnId,
    pub id: &'a NodeId,
}

impl Ping<'_> {
    /// The bencoding of this query.
    pub open spec fn spec_bytes(&self) -> Seq<u8> {
        query_bytes(self.txn_id.0, "ping", seq![(key("id"), bstr(self.id@))])
    }

    /// The bencoded query.
    pub fn encode_to_vec(&self) -> (r: Vec<u8>)
        ensures
            r@ == self.spec_bytes(),
    {
        let args = vec![("id", bytes_value(&self.id.0))];
        let r = write_query(self.txn_id, "ping", args);
        assert(entries_bytes(args@) =~= seq![(key("id"), bstr(self.id@))]);
        r
    }
}

/// A `find_node` query.
pub struct FindNode<'a> {
    pub txn_id: TxnId,
    pub id: &'a NodeId,
    pub target: &'a NodeId,
}

impl FindNode<'_> {
    /// The bencoding of this query.
    pub open spec fn spec_bytes(&self) -> Seq<u8> {
        query_bytes(
            self.txn_id.0,
            "find_node",
            seq![(key("id"), bstr(self.id@)), (key("target"), bstr(self.target@))],
        )
    }

    /// The bencoded query.
    pub fn encode_to_vec(&self) -> (r: Vec<u8>)
        ensures
            r@ == self.spec_bytes(),
    {
        let args = vec![("id", bytes_value(&self.id.0)), ("target", bytes_value(&self.target.0))];
        let r = write_query(self.txn_id, "find_node", args);
        assert(entries_bytes(args@) =~= seq![(key("id"), bstr(self.id@)), (key("target"), bstr(self.target@))]);
        r
    }
}

/// A `get_peers` query.
pub struct GetPeers<'a> {
    pub txn_id: TxnId,
    pub id: &'a NodeId,
    pub info_hash: &'a NodeId,
}

impl GetPeers<'_> {
    /// The bencoding of this query.
    pub open spec fn spec_bytes(&self) -> Seq<u8> {
        query_bytes(
            self.txn_id.0,
            "get_peers",
            seq![(key("id"), bstr(self.id@)), (key("info_hash"), bstr(self.info_hash@))],
        )
    }

    /// The bencoded query.
    pub fn encode_to_vec(&self) -> (r: Vec<u8>)
        ensures
            r@ == self.spec_bytes(),
    {
        let args = vec![("id", bytes_value(&self.id.0)), ("info_hash", bytes_value(&self.info_hash.0))];
        let r = write_query(self.txn_id, "get_peers", args);
        assert(entries_bytes(args@) =~= seq![(key("id"), bstr(self.id@)), (key("info_hash"), bstr(self.info_hash@))]);
        r
    }
}

/// An `announce_peer` query: with `implied_port` the peer's port is the
/// one the query comes from, and `port` is not sent.
pub struct AnnouncePeer<'a> {
    pub txn_id: TxnId,
    pub id: &'a NodeId,
    pub implied_port: bool,
    pub info_hash: &'a NodeId,
    pub port: u16,
    pub token: &'a [u8],
}

impl AnnouncePeer<'_> {
    /// The arguments of this query, in key order.
    pub open spec fn spec_args(&self) -> Seq<(Seq<u8>, Seq<u8>)> {
        if self.implied_port {
            seq![
                (key("id"), bstr(self.id@)),
                (key("implied_port"), bint(1)),
                (key("info_hash"), bstr(self.info_hash@)),
                (key("token"), bstr(self.token@)),
            ]
        } else {
            seq![
                (key("id"), bstr(self.id@)),
                (key("info_hash"), bstr(self.info_hash@)),
                (key("port"), bint(self.port as int)),
                (key("token"), bstr(self.token@)),
            ]
        }
    }

    /// The bencoding of this query.
    pub open spec fn spec_bytes(&self) -> Seq<u8> {
        query_bytes(self.txn_id.0, "announce_peer", self.spec_args())
    }

    /// The bencoded query.
    pub fn encode_to_vec(&self) -> (r: Vec<u8>)
        ensures
            r@ == self.spec_bytes(),
    {
        let args = if self.implied_port {
            vec![
                ("id", bytes_value(&self.id.0)),
                ("implied_port", int_value(1)),
                ("info_hash", bytes_value(&self.info_hash.0)),
                ("token", bytes_value(self.token)),
            ]
        } else {
            vec![
                ("id", bytes_value(&self.id.0)),
                ("info_hash", bytes_value(&self.info_hash.0)),
                ("port", int_value(self.port as i64)),
                ("token", bytes_value(self.token)),
            ]
        };
        let r = write_query(self.txn_id, "announce_peer", args);
        assert(entries_bytes(args@) =~= self.spec_args());
        r
    }
}

/// The kinds of error a node answers with.
#[derive(Debug, Clone, Copy, PartialEq, Eq, Structural)]
pub enum ErrorKind {
    Generic,
    Server,
    Protocol,
    MethodUnknown,
}

/// The numeric code of an error kind.
pub open spec fn error_code(k: ErrorKind) -> int {
    match k {
        ErrorKind::Generic => 201,
        ErrorKind::Server => 202,
        ErrorKind::Protocol => 203,
        ErrorKind::MethodUnknown => 204,
    }
}

/// An error answer: its kind and a description.
pub struct Error {
    pub kind: ErrorKind,
    pub description: String,
}

impl Error {
    /// The bencoding of this error: its code, then its description.
    pub open spec fn spec_bytes(&self) -> Seq<u8> {
        bint(error_code(self.kind)) + bstr(vstd::utf8::encode_utf8(self.description@))
    }

    /// Appends the bencoded error to `buf`.
    pub fn encode(&self, buf: &mut Vec<u8>)
        ensures
            final(buf)@ == old(buf)@ + self.spec_bytes(),
    {
        let code: i64 = match self.kind {
            ErrorKind::Generic => 201,
            ErrorKind::Server => 202,
            ErrorKind::Protocol => 203,
            ErrorKind::MethodUnknown => 204,
        };
        let ghost b0 = buf@;
        add_int(buf, code);
        add_str(buf, self.description.as_str());
        assert(buf@ =~= b0 + self.spec_bytes());
    }
}

/// Why a received message was refused.
#[derive(Debug, Clone, Copy, PartialEq, Eq, Structural)]
pub enum MsgError {
    /// The bytes are not one bencoded value.
    Bencode,
    /// The message is not a dictionary.
    NotADict,
    /// No message type (`y`).
    MissingType,
    /// No transaction id (`t`).
    MissingTxnId,
    /// The transaction id is not two bytes long.
    BadTxnId,
    /// A query without a query type (`q`).
    MissingQueryType,
    /// A query type we do not know.
    UnknownQueryType,
    /// A query without arguments (`a`).
    MissingArgs,
    /// A response without its values (`r`).
    MissingResponse,
    /// Arguments or response values without the sender's id.
    MissingId,
    /// A sender's id that is not twenty bytes long.
    BadIdLength,
    /// A message type we do not know.
    UnknownMessageType,
}

/// A query received.
#[derive(Debug)]
pub struct Query {
    pub txn_id: TxnId,
    pub kind: QueryKind,
    /// The sender's id.
    pub id: NodeId,
    /// The encoded arguments dictionary.
    pub args: Vec<u8>,
    /// The whole encoded message.
    pub body: Vec<u8>,
}

/// A response received.
#[derive(Debug)]
pub struct Response {
    pub txn_id: TxnId,
    /// The sender's id.
    pub id: NodeId,
    /// The encoded dictionary of response values.
    pub body: Vec<u8>,
}

/// An error received.
#[derive(Debug)]
pub struct ErrorResponse {
    pub txn_id: TxnId,
    /// The encoded list of the error code and description, when there is one.
    pub list: Option<Vec<u8>>,
}

/// A message received.
#[derive(Debug)]
pub enum Msg {
    Query(Query),
    Response(Response),
    Error(ErrorResponse),
}

/// The model of a received message.
pub enum MsgModel {
    Query { txn_id: u16, kind: QueryKind, id: Seq<u8>, args: Seq<u8>, body: Seq<u8> },
    Response { txn_id: u16, id: Seq<u8>, body: Seq<u8> },
    Error { txn_id: u16, list: Option<Seq<u8>> },
}

impl View for Msg {
    type V = MsgModel;

    open spec fn view(&self) -> MsgModel {
        match self {
            Msg::Query(q) => MsgModel::Query {
                txn_id: q.txn_id.0,
                kind: q.kind,
                id: q.id@,
                args: q.args@,
                body: q.body@,
            },
            Msg::Response(r) => MsgModel::Response { txn_id: r.txn_id.0, id: r.id@, body: r.body@ },
            Msg::Error(e) => MsgModel::Error {
                txn_id: e.txn_id.0,
                list: match e.list {
                    Some(l) => Some(l@),
                    None => None,
                },
            },
        }
    }
}

/// The model of a parse result.
pub open spec fn parsed_view(p: Option<Option<Vec<BEntry>>>) -> Option<Option<Seq<(Seq<u8>, BVal)>>> {
    match p {
        None => None,
        Some(None) => Some(None),
        Some(Some(v)) => Some(Some(entries_view(v@))),
    }
}

/// The byte string under key `k`, if that is what it holds.
pub open spec fn bytes_at(es: Seq<(Seq<u8>, BVal)>, k: Seq<u8>) -> Option<Seq<u8>> {
    match lookup(es, k) {
        Some(BVal::Bytes(b)) => Some(b),
        _ => None,
    }
}

/// The encoded dictionary under key `k`, if that is what it holds.
pub open spec fn dict_at(es: Seq<(Seq<u8>, BVal)>, k: Seq<u8>) -> Option<Seq<u8>> {
    match lookup(es, k) {
        Some(BVal::Dict(b)) => Some(b),
        _ => None,
    }
}

/// The encoded list under key `k`, if that is what it holds.
pub open spec fn list_at(es: Seq<(Seq<u8>, BVal)>, k: Seq<u8>) -> Option<Seq<u8>> {
    match lookup(es, k) {
        Some(BVal::List(b)) => Some(b),
        _ => None,
    }
}

/// The query kind a method name stands for.
pub open spec fn query_kind_of(q: Seq<u8>) -> Option<QueryKind> {
    if q == key("ping") {
        Some(QueryKind::Ping)
    } else if q == key("find_node") {
        Some(QueryKind::FindNode)
    } else if q == key("get_peers") {
        Some(QueryKind::GetPeers)
    } else if q == key("announce_peer") {
        Some(QueryKind::AnnouncePeer)
    } else {
        None
    }
}

/// The sender's id from a parsed argument or response dictionary.
pub open spec fn id_of_args(inner: Option<Option<Seq<(Seq<u8>, BVal)>>>) -> Result<Seq<u8>, MsgError> {
    match inner {
        Some(Some(ae)) => match bytes_at(ae, key("id")) {
            None => Err(MsgError::MissingId),
            Some(id) => if id.len() == 20 {
                Ok(id)
            } else {
                Err(MsgError::BadIdLength)
            },
        },
        _ => Err(MsgError::Bencode),
    }
}

/// The message a buffer holds, given what the parser makes of the buffer
/// (`top`) and of its argument or response dictionary (`inner`).
pub open spec fn decode_spec(
    buf: Seq<u8>,
    top: Option<Option<Seq<(Seq<u8>, BVal)>>>,
    inner: Option<Option<Seq<(Seq<u8>, BVal)>>>,
) -> Result<MsgModel, MsgError> {
    match top {
        None => Err(MsgError::Bencode),
        Some(None) => Err(MsgError::NotADict),
        Some(Some(es)) => match bytes_at(es, key("y")) {
            None => Err(MsgError::MissingType),
            Some(y) => match bytes_at(es, key("t")) {
                None => Err(MsgError::MissingTxnId),
                Some(t) => if t.len() != 2 {
                    Err(MsgError::BadTxnId)
                } else {
                    let txn = (t[0] * 256 + t[1]) as u16;
                    if y == key("q") {
                        match bytes_at(es, key("q")) {
                            None => Err(MsgError::MissingQueryType),
                            Some(q) => match query_kind_of(q) {
                                None => Err(MsgError::UnknownQueryType),
                                Some(kind) => match dict_at(es, key("a")) {
                                    None => Err(MsgError::MissingArgs),
                                    Some(a) => match id_of_args(inner) {
                                        Err(e) => Err(e),
                                        Ok(id) => Ok(
                                            MsgModel::Query { txn_id: txn, kind, id, args: a, body: buf },
                                        ),
                                    },
                                },
                            },
                        }
                    } else if y == key("r") {
                        match dict_at(es, key("r")) {
                            None => Err(MsgError::MissingResponse),
                            Some(r) => match id_of_args(inner) {
                                Err(e) => Err(e),
                                Ok(id) => Ok(MsgModel::Response { txn_id: txn, id, body: r }),
                            },
                        }
                    } else if y == key("e") {
                        Ok(MsgModel::Error { txn_id: txn, list: list_at(es, key("r")) })
                    } else {
                        Err(MsgError::UnknownMessageType)
                    }
                },
            },
        },
    }
}

/// The encoded dictionary a message keeps its sender's id in: the
/// arguments of a query, the values of a response.
pub open spec fn inner_raw(es: Seq<(Seq<u8>, BVal)>) -> Option<Seq<u8>> {
    if bytes_at(es, key("y")) == Some(key("q")) {
        dict_at(es, key("a"))
    } else if bytes_at(es, key("y")) == Some(key("r")) {
        dict_at(es, key("r"))
    } else {
        None
    }
}

/// What the parser makes of the dictionary holding the sender's id.
pub open spec fn inner_of(buf: Seq<u8>) -> Option<Option<Seq<(Seq<u8>, BVal)>>> {
    match bencode_dict_of(buf) {
        Some(Some(es)) => match inner_raw(es) {
            Some(raw) => bencode_dict_of(raw),
            None => None,
        },
        _ => None,
    }
}

/// The value under key `k` when it is a byte string.
pub fn get_bytes<'a>(es: &'a Vec<BEntry>, k: &str) -> (r: Option<&'a Vec<u8>>)
    ensures
        match r {
            None => bytes_at(entries_view(es@), key(k)) is None,
            Some(b) => bytes_at(entries_view(es@), key(k)) == Some(b@),
        },
{
    match find(es, k.as_bytes()) {
        Some(BValue::Bytes(b)) => Some(b),
        _ => None,
    }
}

/// The value under key `k` when it is a dictionary.
pub fn get_dict<'a>(es: &'a Vec<BEntry>, k: &str) -> (r: Option<&'a Vec<u8>>)
    ensures
        match r {
            None => dict_at(entries_view(es@), key(k)) is None,
            Some(b) => dict_at(entries_view(es@), key(k)) == Some(b@),
        },
{
    match find(es, k.as_bytes()) {
        Some(BValue::Dict(b)) => Some(b),
        _ => None,
    }
}

/// The value under key `k` when it is a list.
pub fn get_list<'a>(es: &'a Vec<BEntry>, k: &str) -> (r: Option<&'a Vec<u8>>)
    ensures
        match r {
            None => list_at(entries_view(es@), key(k)) is None,
            Some(b) => list_at(entries_view(es@), key(k)) == Some(b@),
        },
{
    match find(es, k.as_bytes()) {
        Some(BValue::List(b)) => Some(b),
        _ => None,
    }
}

/// Whether `b` holds the bytes of `s`.
fn is_key(b: &[u8], s: &str) -> (r: bool)
    ensures
        r == (b@ == key(s)),
{
    bytes_eq(b, s.as_bytes())
}

/// The sender's id from a parsed argument or response dictionary.
fn extract_id(inner: &Option<Option<Vec<BEntry>>>) -> (r: Result<NodeId, MsgError>)
    ensures
        match r {
            Ok(id) => id_of_args(parsed_view(*inner)) == Ok::<Seq<u8>, MsgError>(id@),
            Err(e) => id_of_args(parsed_view(*inner)) == Err::<Seq<u8>, MsgError>(e),
        },
{
    match inner {
        Some(Some(ae)) => match get_bytes(ae, "id") {
            None => Err(MsgError::MissingId),
            Some(id) => if id.len() == 20 {
                Ok(NodeId::from_slice_20(id.as_slice()))
            } else {
                Err(MsgError::BadIdLength)
            },
        },
        _ => Err(MsgError::Bencode),
    }
}

impl Msg {
    /// Reads a message from `buf`, given what the parser makes of `buf`
    /// (`top`) and of the dictionary holding the sender's id (`inner`).
    pub fn decode_parts(
        buf: &[u8],
        top: &Option<Option<Vec<BEntry>>>,
        inner: &Option<Option<Vec<BEntry>>>,
    ) -> (r: Result<Msg, MsgError>)
        ensures
            match r {
                Ok(m) => decode_spec(buf@, parsed_view(*top), parsed_view(*inner)) == Ok::<
                    MsgModel,
                    MsgError,
                >(m@),
                Err(e) => decode_spec(buf@, parsed_view(*top), parsed_view(*inner)) == Err::<
                    MsgModel,
                    MsgError,
                >(e),
            },
    {
        let es = match top {
            None => {
                return Err(MsgError::Bencode);
            },
            Some(None) => {
                return Err(MsgError::NotADict);
            },
            Some(Some(es)) => es,
        };
        let y = match get_bytes(es, "y") {
            None => {
                return Err(MsgError::MissingType);
            },
            Some(y) => y,
        };
        let t = match get_bytes(es, "t") {
            None => {
                return Err(MsgError::MissingTxnId);
            },
            Some(t) => t,
        };
        if t.len() != 2 {
            return Err(MsgError::BadTxnId);
        }
        let txn_id = TxnId((t[0] as u16) * 256 + (t[1] as u16));
        if is_key(y, "q") {
            let q = match get_bytes(es, "q") {
                None => {
                    return Err(MsgError::MissingQueryType);
                },
                Some(q) => q,
            };
            let kind = if is_key(q, "ping") {
                QueryKind::Ping
            } else if is_key(q, "find_node") {
                QueryKind::FindNode
            } else if is_key(q, "get_peers") {
                QueryKind::GetPeers
            } else if is_key(q, "announce_peer") {
                QueryKind::AnnouncePeer
            } else {
                return Err(MsgError::UnknownQueryType);
            };
            let a = match get_dict(es, "a") {
                None => {
                    return Err(MsgError::MissingArgs);
                },
                Some(a) => a,
            };
            let id = extract_id(inner)?;
            Ok(Msg::Query(Query { txn_id, kind, id, args: a.clone(), body: vstd::slice::slice_to_vec(buf) }))
        } else if is_key(y, "r") {
            let r = match get_dict(es, "r") {
                None => {
                    return Err(MsgError::MissingResponse);
                },
                Some(r) => r,
            };
            let id = extract_id(inner)?;
            Ok(Msg::Response(Response { txn_id, id, body: r.clone() }))
        } else if is_key(y, "e") {
            let list = match get_list(es, "r") {
                None => None,
                Some(l) => Some(l.clone()),
            };
            Ok(Msg::Error(ErrorResponse { txn_id, list }))
        } else {
            Err(MsgError::UnknownMessageType)
        }
    }

    /// Reads a message from its bencoding.
    pub fn decode(buf: &[u8]) -> (r: Result<Msg, MsgError>)
        ensures
            match r {
                Ok(m) => decode_spec(buf@, bencode_dict_of(buf@), inner_of(buf@)) == Ok::<
                    MsgModel,
                    MsgError,
                >(m@),
                Err(e) => decode_spec(buf@, bencode_dict_of(buf@), inner_of(buf@)) == Err::<
                    MsgModel,
                    MsgError,
                >(e),
            },
    {
        let top = parse_dict(buf);
        let inner = match &top {
            Some(Some(es)) => {
                let raw = match get_bytes(es, "y") {
                    Some(y) => if is_key(y, "q") {
                        get_dict(es, "a")
                    } else if is_key(y, "r") {
                        get_dict(es, "r")
                    } else {
                        None
                    },
                    None => None,
                };
                match raw {
                    Some(raw) => parse_dict(raw.as_slice()),
                    None => None,
                }
            },
            _ => None,
        };
        Self::decode_parts(buf, &top, &inner)
    }
}

} // verus!
