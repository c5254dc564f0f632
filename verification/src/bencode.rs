//! Bencoding: the byte strings, integers and dictionaries of the wire
//! format, written through the `ben` crate's encoder and read through its
//! parser.
use ben::Encoder;
use vstd::string::StringSliceAdditionalSpecFns;
use vstd::prelude::*;

verus! {

/// The decimal digits of `n`, most significant first.
pub open spec fn dec_nat(n: nat) -> Seq<u8>
    decreases n,
{
    if n < 10 {
        seq![(48 + n) as u8]
    } else {
        dec_nat(n / 10).push((48 + n % 10) as u8)
    }
}

/// The decimal text of `i`, with a leading `-` when negative.
pub open spec fn dec_int(i: int) -> Seq<u8> {
    if i < 0 {
        seq![45u8] + dec_nat((-i) as nat)
    } else {
        dec_nat(i as nat)
    }
}

/// A bencoded byte string: its length in decimal, a colon, the bytes.
pub open spec fn bstr(s: Seq<u8>) -> Seq<u8> {
    dec_nat(s.len()) + seq![58u8] + s
}

/// A bencoded integer: `i`, the decimal text, `e`.
pub open spec fn bint(i: int) -> Seq<u8> {
    seq![105u8] + dec_int(i) + seq![101u8]
}

/// The key-value pairs of a dictionary body, each key as a byte string
/// followed by its already encoded value.
pub open spec fn dict_body(entries: Seq<(Seq<u8>, Seq<u8>)>) -> Seq<u8>
    decreases entries.len(),
{
    if entries.len() == 0 {
        Seq::empty()
    } else {
        dict_body(entries.drop_last()) + (bstr(entries.last().0) + entries.last().1)
    }
}

/// A bencoded dictionary: `d`, the pairs in the given order, `e`.
pub open spec fn bdict(entries: Seq<(Seq<u8>, Seq<u8>)>) -> Seq<u8> {
    seq![100u8] + dict_body(entries) + seq![101u8]
}

/// The bytes of a text key.
pub open spec fn key(s: &str) -> Seq<u8> {
    s.spec_bytes()
}

/// Appends `value` as a bencoded integer (`ben::Encoder::add_int` on a
/// byte vector): `i`, the decimal digits, `e`.
#[verifier::external_body]
pub(crate) fn add_int(buf: &mut Vec<u8>, value: i64)
    ensures
        final(buf)@ == old(buf)@ + bint(value as int),
{
    buf.add_int(value)
}

/// Appends `value` as a bencoded byte string (`ben::Encoder::add_bytes` on
/// a byte vector): the decimal length, `:`, the bytes.
#[verifier::external_body]
pub(crate) fn add_bytes(buf: &mut Vec<u8>, value: &[u8])
    ensures
        final(buf)@ == old(buf)@ + bstr(value@),
{
    buf.add_bytes(value)
}

/// Appends the UTF-8 bytes of `value` as a bencoded byte string
/// (`ben::Encoder::add_str` on a byte vector).
#[verifier::external_body]
pub(crate) fn add_str(buf: &mut Vec<u8>, value: &str)
    ensures
        final(buf)@ == old(buf)@ + bstr(value.spec_bytes()),
{
    buf.add_str(value)
}

/// The entries of a dictionary to write: each key as its bytes, each value
/// already encoded.
pub open spec fn entries_bytes(entries: Seq<(&str, Vec<u8>)>) -> Seq<(Seq<u8>, Seq<u8>)> {
    entries.map_values(|e: (&str, Vec<u8>)| (key(e.0), e.1@))
}

/// Writes a dictionary whose keys and encoded values are `entries`, in
/// their order, as `ben`'s dictionary builder does: `d`, each key as a byte
/// string followed by its value, `e`.
pub fn write_dict(buf: &mut Vec<u8>, entries: &Vec<(&str, Vec<u8>)>)
    ensures
        final(buf)@ == old(buf)@ + bdict(entries_bytes(entries@)),
{
    let ghost b0 = buf@;
    open_dict(buf);
    let mut i: usize = 0;
    assert(entries_bytes(entries@).take(0) =~= Seq::<(Seq<u8>, Seq<u8>)>::empty());
    assert(buf@ =~= b0.push(100u8) + dict_body(entries_bytes(entries@).take(0)));
    while i < entries.len()
        invariant
            i <= entries@.len(),
            buf@ == b0.push(100u8) + dict_body(entries_bytes(entries@).take(i as int)),
        decreases entries@.len() - i,
    {
        let ghost before = buf@;
        let k = entries[i].0;
        add_str(buf, k);
        let mut v = entries[i].1.clone();
        buf.append(&mut v);
        proof {
            let es = entries_bytes(entries@);
            assert(es.take(i + 1).drop_last() =~= es.take(i as int));
            assert(es.take(i + 1).last() == (key(k), entries@[i as int].1@));
            vstd::seq_lib::lemma_concat_associative(
                b0.push(100u8),
                dict_body(es.take(i as int)),
                bstr(key(k)) + entries@[i as int].1@,
            );
            assert(buf@ =~= before + (bstr(key(k)) + entries@[i as int].1@));
        }
        i = i + 1;
    }
    assert(entries_bytes(entries@).take(entries@.len() as int) =~= entries_bytes(entries@));
    close_dict(buf);
    assert(buf@ =~= b0 + bdict(entries_bytes(entries@)));
}

/// The bencoding of a byte string, as a fresh vector.
pub fn bytes_value(value: &[u8]) -> (r: Vec<u8>)
    ensures
        r@ == bstr(value@),
{
    let mut v: Vec<u8> = Vec::new();
    add_bytes(&mut v, value);
    assert(v@ =~= bstr(value@));
    v
}

/// The bencoding of a text, as a fresh vector.
pub fn str_value(value: &str) -> (r: Vec<u8>)
    ensures
        r@ == bstr(key(value)),
{
    let mut v: Vec<u8> = Vec::new();
    add_str(&mut v, value);
    assert(v@ =~= bstr(key(value)));
    v
}

/// The bencoding of an integer, as a fresh vector.
pub fn int_value(value: i64) -> (r: Vec<u8>)
    ensures
        r@ == bint(value as int),
{
    let mut v: Vec<u8> = Vec::new();
    add_int(&mut v, value);
    assert(v@ =~= bint(value as int));
    v
}

/// Opens a dictionary: the marker `d`, as `ben`'s dictionary builder
/// writes it.
pub fn open_dict(buf: &mut Vec<u8>)
    ensures
        final(buf)@ == old(buf)@.push(100u8),
{
    buf.push(100u8);
}

/// Closes a dictionary: the marker `e`, as `ben`'s dictionary builder
/// writes it when it is dropped.
pub fn close_dict(buf: &mut Vec<u8>)
    ensures
        final(buf)@ == old(buf)@.push(101u8),
{
    buf.push(101u8);
}

/// A parsed bencoded value: an integer, or the bytes of a byte string, or
/// the whole encoded text of a list or a dictionary.
#[derive(Debug, Clone, PartialEq, Eq)]
pub enum BValue {
    Int(i64),
    Bytes(Vec<u8>),
    List(Vec<u8>),
    Dict(Vec<u8>),
}

/// The model of a parsed value.
pub enum BVal {
    Int(int),
    Bytes(Seq<u8>),
    List(Seq<u8>),
    Dict(Seq<u8>),
}

impl View for BValue {
    type V = BVal;

    open spec fn view(&self) -> BVal {
        match self {
            BValue::Int(i) => BVal::Int(*i as int),
            BValue::Bytes(b) => BVal::Bytes(b@),
            BValue::List(b) => BVal::List(b@),
            BValue::Dict(b) => BVal::Dict(b@),
        }
    }
}

/// One entry of a parsed dictionary.
#[derive(Debug, Clone, PartialEq, Eq)]
pub struct BEntry {
    pub key: Vec<u8>,
    pub value: BValue,
}

impl View for BEntry {
    type V = (Seq<u8>, BVal);

    open spec fn view(&self) -> (Seq<u8>, BVal) {
        (self.key@, self.value@)
    }
}

/// The models of parsed entries.
pub open spec fn entries_view(v: Seq<BEntry>) -> Seq<(Seq<u8>, BVal)> {
    v.map_values(|e: BEntry| e@)
}

/// What `ben`'s parser, with the nesting limit of [`PARSE_DEPTH_LIMIT`],
/// makes of a whole buffer read as a dictionary: `None` when the buffer is
/// not one bencoded value (or nests deeper), `Some(None)` when the value is
/// not a dictionary, else its entries in order.
pub uninterp spec fn ben_dict_of(input: Seq<u8>) -> Option<Option<Seq<(Seq<u8>, BVal)>>>;

/// What `ben`'s parser, with the nesting limit of [`PARSE_DEPTH_LIMIT`],
/// makes of a whole buffer read as a list: `None` when the buffer is not
/// one bencoded value (or nests deeper), `Some(None)` when the value is not
/// a list, else its items in order.
pub uninterp spec fn ben_list_of(input: Seq<u8>) -> Option<Option<Seq<BVal>>>;

/// Parses `buf` as one bencoded value and, if it is a list, lists its
/// items (`ben::Parser::parse`, with the nesting limit of
/// [`PARSE_DEPTH_LIMIT`], and `Decoder::into_list`).
#[verifier::external_body]
fn ben_parse_list(buf: &[u8]) -> (r: Option<Option<Vec<BValue>>>)
    requires
        parser_safe(buf@),
    ensures
        match r {
            None => ben_list_of(buf@) is None,
            Some(None) => ben_list_of(buf@) == Some(None::<Seq<BVal>>),
            Some(Some(v)) => ben_list_of(buf@) == Some(Some(v@.map_values(|x: BValue| x@))),
        },
{
    let mut parser = ben::Parser::new();
    parser.depth_limit(PARSE_DEPTH_LIMIT);
    let dec = match parser.parse::<ben::Decoder>(buf) {
        Ok(d) => d,
        Err(_) => return None,
    };
    let list = match dec.into_list() {
        Some(l) => l,
        None => return Some(None),
    };
    Some(Some(list.iter().map(|v| value_of(&v)).collect()))
}

/// What `ben`'s parser, with the nesting limit of [`PARSE_DEPTH_LIMIT`],
/// makes of the value at the start of a buffer: `None` when there is none
/// (or it nests deeper), else the value and the number of bytes it spans.
pub uninterp spec fn ben_prefix_of(input: Seq<u8>) -> Option<(BVal, nat)>;

/// Parses `buf` as one bencoded value and, if it is a dictionary, lists its
/// entries (`ben::Parser::parse`, with the nesting limit of
/// [`PARSE_DEPTH_LIMIT`], and `Decoder::into_dict`).
#[verifier::external_body]
fn ben_parse_dict(buf: &[u8]) -> (r: Option<Option<Vec<BEntry>>>)
    requires
        parser_safe(buf@),
    ensures
        match r {
            None => ben_dict_of(buf@) is None,
            Some(None) => ben_dict_of(buf@) == Some(None::<Seq<(Seq<u8>, BVal)>>),
            Some(Some(v)) => ben_dict_of(buf@) == Some(Some(entries_view(v@))),
        },
{
    let mut parser = ben::Parser::new();
    parser.depth_limit(PARSE_DEPTH_LIMIT);
    let dec = match parser.parse::<ben::Decoder>(buf) {
        Ok(d) => d,
        Err(_) => return None,
    };
    let dict = match dec.into_dict() {
        Some(d) => d,
        None => return Some(None),
    };
    let mut out = Vec::new();
    for (k, v) in dict.iter() {
        out.push(BEntry { key: k.as_raw_bytes().to_vec(), value: value_of(&v) });
    }
    Some(Some(out))
}

/// Parses the bencoded value at the start of `buf`
/// (`ben::Parser::parse_prefix`, with the nesting limit of
/// [`PARSE_DEPTH_LIMIT`]), giving it with the number of bytes it spans.
#[verifier::external_body]
fn ben_parse_prefix(buf: &[u8]) -> (r: Option<(BValue, usize)>)
    requires
        parser_safe(buf@),
    ensures
        match r {
            None => ben_prefix_of(buf@) is None,
            Some((v, n)) => ben_prefix_of(buf@) == Some((v@, n as nat)),
        },
        r matches Some((v, n)) ==> n <= buf@.len(),
{
    let mut parser = ben::Parser::new();
    parser.depth_limit(PARSE_DEPTH_LIMIT);
    match parser.parse_prefix::<ben::Decoder>(buf) {
        Ok((d, n)) => Some((value_of(&d), n)),
        Err(_) => None,
    }
}

/// How deep lists and dictionaries may nest in what is parsed; deeper input
/// is refused rather than followed down the stack.
pub const PARSE_DEPTH_LIMIT: usize = 100;

/// Whether `c` is an ASCII digit.
pub open spec fn is_digit(c: u8) -> bool {
    48 <= c && c <= 57
}

/// Ten to the power `n`.
pub open spec fn pow10(n: nat) -> nat
    decreases n,
{
    if n == 0 {
        1
    } else {
        10 * pow10((n - 1) as nat)
    }
}

/// The number spelled by the digits of `b` from `k` up to `i`.
pub open spec fn digits_value(b: Seq<u8>, k: int, i: int) -> nat
    decreases i - k,
{
    if k >= i {
        0
    } else {
        ((b[k] - 48) as nat) * pow10((i - k - 1) as nat) + digits_value(b, k + 1, i)
    }
}

/// The bytes of `b` from `k` up to `i` are digits.
pub open spec fn all_digits(b: Seq<u8>, k: int, i: int) -> bool {
    forall|j: int| k <= j < i ==> is_digit(#[trigger] b[j])
}

/// Input the parser reads without overflowing its offsets. It is shorter
/// than a billion bytes, so an offset into it plus a byte string length
/// overflows only when the length is within a billion of the largest
/// `usize`; and no digits of at most twenty just before a `:` spell such a
/// number. (Longer runs need not be looked at: with a non-zero digit
/// before their last twenty they spell more than any `usize`, which the
/// parser refuses; with only zeros before those, the same number.)
pub open spec fn parser_safe(b: Seq<u8>) -> bool {
    &&& b.len() < 1_000_000_000
    &&& forall|k: int, i: int|
        0 <= k < i < b.len() && i - k <= 20 && b[i] == 58u8 && all_digits(b, k, i) ==> !(usize::MAX
            - 1_000_000_000 < #[trigger] digits_value(b, k, i) && digits_value(b, k, i) <= usize::MAX)
}

/// What a whole buffer parses to as a dictionary (see [`ben_dict_of`]);
/// input the parser cannot take safely is refused.
pub open spec fn bencode_dict_of(input: Seq<u8>) -> Option<Option<Seq<(Seq<u8>, BVal)>>> {
    if parser_safe(input) {
        ben_dict_of(input)
    } else {
        None
    }
}

/// What a whole buffer parses to as a list (see [`ben_list_of`]); input the
/// parser cannot take safely is refused.
pub open spec fn bencode_list_of(input: Seq<u8>) -> Option<Option<Seq<BVal>>> {
    if parser_safe(input) {
        ben_list_of(input)
    } else {
        None
    }
}

/// The value at the start of a buffer and the bytes it spans (see
/// [`ben_prefix_of`]); input the parser cannot take safely is refused.
pub open spec fn bencode_prefix_of(input: Seq<u8>) -> Option<(BVal, nat)> {
    if parser_safe(input) {
        ben_prefix_of(input)
    } else {
        None
    }
}

proof fn lemma_pow10_mono(n: nat, m: nat)
    requires
        n <= m,
    ensures
        1 <= pow10(n) <= pow10(m),
    decreases m,
{
    if m > n {
        lemma_pow10_mono(n, (m - 1) as nat);
    } else if n > 0 {
        lemma_pow10_mono((n - 1) as nat, (n - 1) as nat);
    }
}

proof fn lemma_pow10_bound(n: nat)
    requires
        n <= 19,
    ensures
        1 <= pow10(n) <= 10_000_000_000_000_000_000,
{
    lemma_pow10_mono(n, 19);
    reveal_with_fuel(pow10, 20);
}

/// Whether the digits just before the `:` at `i`, up to twenty of them,
/// never spell a number within a billion of the largest `usize`.
fn colon_safe(buf: &[u8], i: usize) -> (r: bool)
    requires
        i < buf@.len(),
        buf@[i as int] == 58u8,
    ensures
        r == forall|k: int|
            0 <= k < i && i - k <= 20 && all_digits(buf@, k, i as int) ==> !(usize::MAX - 1_000_000_000
                < #[trigger] digits_value(buf@, k, i as int) && digits_value(buf@, k, i as int) <= usize::MAX),
{
    let max: u128 = usize::MAX as u128;
    let mut v: u128 = 0;
    let mut pw: u128 = 1;
    let mut j: usize = i;
    while j > 0 && i - j < 20
        invariant
            j <= i < buf@.len(),
            i - j <= 20,
            max == usize::MAX,
            all_digits(buf@, j as int, i as int),
            v == digits_value(buf@, j as int, i as int),
            v < pow10((i - j) as nat),
            pw == pow10((i - j) as nat),
            i - j <= 19 ==> pw <= 10_000_000_000_000_000_000,
            forall|k: int|
                j <= k < i ==> !(usize::MAX - 1_000_000_000 < #[trigger] digits_value(buf@, k, i as int)
                    && digits_value(buf@, k, i as int) <= usize::MAX),
        decreases j,
    {
        let c = buf[j - 1];
        if c < 48u8 || c > 57u8 {
            proof {
                assert forall|k: int| 0 <= k < i && i - k <= 20 && all_digits(buf@, k, i as int) implies k >= j by {
                    if k < j {
                        assert(is_digit(buf@[j - 1]));
                    }
                }
            }
            return true;
        }
        let d = (c - 48u8) as u128;
        proof {
            lemma_pow10_bound((i - j) as nat);
            assert(d * pw <= 9 * 10_000_000_000_000_000_000) by (nonlinear_arith)
                requires
                    d <= 9,
                    pw <= 10_000_000_000_000_000_000,
            ;
            assert(d * pw + v < 10 * pw) by (nonlinear_arith)
                requires
                    d <= 9,
                    v < pw,
            ;
        }
        v = d * pw + v;
        pw = pw * 10;
        j = j - 1;
        proof {
            if i - j <= 19 {
                lemma_pow10_bound((i - j) as nat);
            }
        }
        assert(digits_value(buf@, j as int, i as int) == v);
        if max - 1_000_000_000 < v && v <= max {
            return false;
        }
    }
    proof {
        assert forall|k: int| 0 <= k < i && i - k <= 20 && all_digits(buf@, k, i as int) implies k >= j by {
            if k < j {
                assert(j > 0);
                assert(i - j == 20);
            }
        }
    }
    true
}

/// Whether `buf` is input the parser takes safely (see [`parser_safe`]).
pub fn is_parser_safe(buf: &[u8]) -> (r: bool)
    ensures
        r == parser_safe(buf@),
{
    let n = buf.len();
    if n >= 1_000_000_000 {
        return false;
    }
    let mut i: usize = 0;
    while i < n
        invariant
            n == buf@.len(),
            n < 1_000_000_000,
            i <= n,
            forall|k: int, i2: int|
                0 <= k < i2 < i && i2 - k <= 20 && buf@[i2] == 58u8 && all_digits(buf@, k, i2) ==> !(usize::MAX
                    - 1_000_000_000 < #[trigger] digits_value(buf@, k, i2) && digits_value(buf@, k, i2)
                    <= usize::MAX),
        decreases n - i,
    {
        if buf[i] == 58u8 && !colon_safe(buf, i) {
            return false;
        }
        i = i + 1;
    }
    true
}

/// Parses `buf` as one bencoded value and, if it is a list, lists its
/// items; `None` also for input the parser cannot take safely.
pub(crate) fn parse_list(buf: &[u8]) -> (r: Option<Option<Vec<BValue>>>)
    ensures
        match r {
            None => bencode_list_of(buf@) is None,
            Some(None) => bencode_list_of(buf@) == Some(None::<Seq<BVal>>),
            Some(Some(v)) => bencode_list_of(buf@) == Some(Some(v@.map_values(|x: BValue| x@))),
        },
{
    if is_parser_safe(buf) {
        ben_parse_list(buf)
    } else {
        None
    }
}

/// Parses `buf` as one bencoded value and, if it is a dictionary, lists its
/// entries; `None` also for input the parser cannot take safely.
pub(crate) fn parse_dict(buf: &[u8]) -> (r: Option<Option<Vec<BEntry>>>)
    ensures
        match r {
            None => bencode_dict_of(buf@) is None,
            Some(None) => bencode_dict_of(buf@) == Some(None::<Seq<(Seq<u8>, BVal)>>),
            Some(Some(v)) => bencode_dict_of(buf@) == Some(Some(entries_view(v@))),
        },
{
    if is_parser_safe(buf) {
        ben_parse_dict(buf)
    } else {
        None
    }
}

/// Parses the bencoded value at the start of `buf`, giving it with the
/// number of bytes it spans; `None` also for input the parser cannot take
/// safely.
pub(crate) fn parse_prefix(buf: &[u8]) -> (r: Option<(BValue, usize)>)
    ensures
        match r {
            None => bencode_prefix_of(buf@) is None,
            Some((v, n)) => bencode_prefix_of(buf@) == Some((v@, n as nat)),
        },
        r matches Some((v, n)) ==> n <= buf@.len(),
{
    if is_parser_safe(buf) {
        ben_parse_prefix(buf)
    } else {
        None
    }
}

/// A value read by `ben`'s parser, borrowed from the parsed buffer.
#[verifier::external_type_specification]
#[verifier::external_body]
pub struct ExDecoder<'a, 'p>(ben::Decoder<'a, 'p>);

/// Converts a parsed `ben` value to a [`BValue`], telling its kinds apart
/// (`Decoder::as_int`, `as_bytes`, `is_list`, `as_raw_bytes`).
#[verifier::external_body]
fn value_of(d: &ben::Decoder<'_, '_>) -> BValue {
    if let Some(i) = d.as_int() {
        BValue::Int(i)
    } else if let Some(b) = d.as_bytes() {
        BValue::Bytes(b.to_vec())
    } else if d.is_list() {
        BValue::List(d.as_raw_bytes().to_vec())
    } else {
        BValue::Dict(d.as_raw_bytes().to_vec())
    }
}

/// The value of the first entry with key `k`, as `ben`'s dictionary lookup
/// finds it.
pub open spec fn lookup(entries: Seq<(Seq<u8>, BVal)>, k: Seq<u8>) -> Option<BVal>
    decreases entries.len(),
{
    if entries.len() == 0 {
        None
    } else if entries[0].0 == k {
        Some(entries[0].1)
    } else {
        lookup(entries.drop_first(), k)
    }
}

/// The value of the first entry whose key is `k`.
pub fn find<'a>(entries: &'a Vec<BEntry>, k: &[u8]) -> (r: Option<&'a BValue>)
    ensures
        match r {
            None => lookup(entries_view(entries@), k@) is None,
            Some(v) => lookup(entries_view(entries@), k@) == Some(v@),
        },
{
    let mut i: usize = 0;
    assert(entries_view(entries@).skip(0) =~= entries_view(entries@));
    while i < entries.len()
        invariant
            i <= entries@.len(),
            lookup(entries_view(entries@), k@) == lookup(entries_view(entries@).skip(i as int), k@),
        decreases entries@.len() - i,
    {
        let ghost rest = entries_view(entries@).skip(i as int);
        assert(rest[0] == entries@[i as int]@);
        assert(rest.drop_first() =~= entries_view(entries@).skip(i + 1));
        if bytes_eq(&entries[i].key, k) {
            return Some(&entries[i].value);
        }
        i = i + 1;
    }
    assert(entries_view(entries@).skip(i as int).len() == 0);
    None
}

/// Whether two byte strings are equal.
pub fn bytes_eq(a: &[u8], b: &[u8]) -> (r: bool)
    ensures
        r == (a@ == b@),
{
    if a.len() != b.len() {
        return false;
    }
    let mut i: usize = 0;
    while i < a.len()
        invariant
            i <= a@.len(),
            a@.len() == b@.len(),
            forall|j: int| 0 <= j < i ==> a@[j] == b@[j],
        decreases a@.len() - i,
    {
        if a[i] != b[i] {
            return false;
        }
        i = i + 1;
    }
    assert(a@ =~= b@);
    true
}

} // verus!
