//! Hex and base32 text encodings of byte strings, as the `data_encoding`
//! crate computes them, stated over byte sequences.
use vstd::prelude::*;

verus! {

/// The upper-case hex digit of a nibble.
pub open spec fn hex_digit_upper(n: u8) -> u8 {
    if n < 10 {
        (48 + n) as u8
    } else {
        (55 + n) as u8
    }
}

/// The nibble a hex digit of either case stands for.
pub open spec fn hex_value(c: u8) -> Option<u8> {
    if 48 <= c <= 57 {
        Some((c - 48) as u8)
    } else if 65 <= c <= 70 {
        Some((c - 55) as u8)
    } else if 97 <= c <= 102 {
        Some((c - 87) as u8)
    } else {
        None
    }
}

/// Upper-case hex text of a byte string, high nibble first.
pub open spec fn hex_upper(s: Seq<u8>) -> Seq<u8> {
    Seq::new(
        2 * s.len(),
        |i: int|
            if i % 2 == 0 {
                hex_digit_upper(s[i / 2] >> 4)
            } else {
                hex_digit_upper(s[i / 2] & 15)
            },
    )
}

/// A hex text of either case that decodes.
pub open spec fn hex_valid(s: Seq<u8>) -> bool {
    &&& s.len() % 2 == 0
    &&& forall|i: int| 0 <= i < s.len() ==> (#[trigger] hex_value(s[i])) is Some
}

/// The bytes a valid hex text stands for.
pub open spec fn hex_decoded(s: Seq<u8>) -> Seq<u8> {
    Seq::new(
        s.len() / 2,
        |i: int| (hex_value(s[2 * i])->0 * 16 + hex_value(s[2 * i + 1])->0) as u8,
    )
}

/// The value of a base32 symbol (RFC 4648 alphabet, upper case).
pub open spec fn base32_value(c: u8) -> Option<u8> {
    if 65 <= c <= 90 {
        Some((c - 65) as u8)
    } else if 50 <= c <= 55 {
        Some((c - 24) as u8)
    } else {
        None
    }
}

/// The base32 symbol of a five-bit value.
pub open spec fn base32_digit(n: u8) -> u8 {
    if n < 26 {
        (65 + n) as u8
    } else {
        (24 + n) as u8
    }
}

/// Bit `k` (most significant first) of a byte string.
pub open spec fn bit_at(s: Seq<u8>, k: int) -> u8 {
    (s[k / 8] >> ((7 - k % 8) as u8)) & 1
}

/// The five-bit group `j` of a byte string, most significant bit first.
pub open spec fn five_bits(s: Seq<u8>, j: int) -> u8 {
    (16 * bit_at(s, 5 * j) + 8 * bit_at(s, 5 * j + 1) + 4 * bit_at(s, 5 * j + 2) + 2 * bit_at(
        s,
        5 * j + 3,
    ) + bit_at(s, 5 * j + 4)) as u8
}

/// Base32 text of a twenty-byte string (160 bits, 32 symbols, no padding).
pub open spec fn base32_of_20(s: Seq<u8>) -> Seq<u8> {
    Seq::new(32, |j: int| base32_digit(five_bits(s, j)))
}

/// Reading hex text undoes writing it: the upper-case hex text of any
/// bytes is valid hex that decodes to those bytes.
pub proof fn law_hex_roundtrip(s: Seq<u8>)
    ensures
        hex_valid(hex_upper(s)),
        hex_decoded(hex_upper(s)) == s,
{
    let h = hex_upper(s);
    assert forall|i: int| 0 <= i < h.len() implies (#[trigger] hex_value(h[i])) is Some by {
        let b = s[i / 2];
        assert((b >> 4) < 16 && (b & 15) < 16) by (bit_vector);
    }
    assert forall|i: int| 0 <= i < s.len() implies #[trigger] hex_decoded(h)[i] == s[i] by {
        let b = s[i];
        assert(h[2 * i] == hex_digit_upper(b >> 4));
        assert(h[2 * i + 1] == hex_digit_upper(b & 15));
        assert((b >> 4) < 16 && (b & 15) < 16 && (b >> 4) * 16 + (b & 15) == b) by (bit_vector);
    }
    assert(hex_decoded(h) =~= s);
}

/// Hex digits are ASCII characters, which stand for their bytes.
pub proof fn lemma_hex_upper_ascii(s: Seq<u8>)
    ensures
        forall|i: int| 0 <= i < 2 * s.len() ==> (#[trigger] hex_upper(s)[i]) < 128,
        vstd::utf8::is_ascii_chars(ascii_text(hex_upper(s))),
        forall|i: int| 0 <= i < 2 * s.len() ==> ((#[trigger] ascii_text(hex_upper(s))[i]) as u8) == hex_upper(s)[i],
{
    assert forall|i: int| 0 <= i < 2 * s.len() implies (#[trigger] hex_upper(s)[i]) < 128 by {
        let b = s[i / 2];
        assert((b >> 4) < 16 && (b & 15) < 16) by (bit_vector);
    }
    let t = ascii_text(hex_upper(s));
    assert forall|i: int| 0 <= i < t.len() implies '\0' <= #[trigger] t[i] <= '\u{7f}' by {
        assert(hex_upper(s)[i] < 128);
    }
}

/// The characters of an ASCII byte string.
pub open spec fn ascii_text(b: Seq<u8>) -> Seq<char> {
    b.map_values(|x: u8| x as char)
}

/// The bytes of a text all of whose characters are ASCII.
pub fn ascii_bytes(s: &str) -> (r: &[u8])
    requires
        vstd::utf8::is_ascii_chars(s@),
    ensures
        r@.len() == s@.len(),
        forall|i: int| 0 <= i < s@.len() ==> r@[i] == s@[i] as u8,
{
    proof {
        assert(vstd::utf8::is_ascii_chars(s@));
        vstd::utf8::is_ascii_chars_encode_utf8(s@);
    }
    s.as_bytes()
}

/// The upper-case hex text of `input` (`HEXUPPER_PERMISSIVE.encode`).
#[verifier::external_body]
pub(crate) fn hex_upper_encode(input: &[u8]) -> (r: String)
    requires
        input@.len() <= 1000000,
    ensures
        r@ == ascii_text(hex_upper(input@)),
{
    data_encoding::HEXUPPER_PERMISSIVE.encode(input)
}

/// Decodes hex text of either case (`HEXUPPER_PERMISSIVE.decode`):
/// `Some` exactly when the text is valid hex, with the bytes it stands for.
#[verifier::external_body]
pub(crate) fn hex_upper_permissive_decode(input: &[u8]) -> (r: Option<Vec<u8>>)
    requires
        input@.len() <= 1000000,
    ensures
        r is Some <==> hex_valid(input@),
        r matches Some(v) ==> v@ == hex_decoded(input@),
{
    data_encoding::HEXUPPER_PERMISSIVE.decode(input).ok()
}

/// Decodes hex text of either case (`HEXLOWER_PERMISSIVE.decode`):
/// `Some` exactly when the text is valid hex, with the bytes it stands for.
#[verifier::external_body]
pub(crate) fn hex_lower_permissive_decode(input: &[u8]) -> (r: Option<Vec<u8>>)
    requires
        input@.len() <= 1000000,
    ensures
        r is Some <==> hex_valid(input@),
        r matches Some(v) ==> v@ == hex_decoded(input@),
{
    data_encoding::HEXLOWER_PERMISSIVE.decode(input).ok()
}

/// Base32 text of a twenty-byte string (`BASE32.encode`).
#[verifier::external_body]
pub(crate) fn base32_encode_20(input: &[u8; 20]) -> (r: String)
    ensures
        r@ == ascii_text(base32_of_20(input@)),
{
    data_encoding::BASE32.encode(input)
}

/// What `BASE32.decode` makes of a text: the bytes, or `None` when the
/// text is not base32.
pub uninterp spec fn base32_decoded(input: Seq<u8>) -> Option<Seq<u8>>;

/// Decodes a thirty-two symbol base32 text (`BASE32.decode`). When every
/// symbol is in the alphabet the result is the twenty bytes whose text it is;
/// a twenty-byte result is always that. Texts holding the padding symbol
/// decode to fewer bytes, which this contract does not describe further.
#[verifier::external_body]
pub(crate) fn base32_decode_32(input: &[u8]) -> (r: Option<Vec<u8>>)
    requires
        input@.len() == 32,
    ensures
        match r {
            None => base32_decoded(input@) is None,
            Some(v) => base32_decoded(input@) == Some(v@),
        },
        (forall|i: int| 0 <= i < 32 ==> (#[trigger] base32_value(input@[i])) is Some) ==> (r is Some
            && r->0@.len() == 20),
        r matches Some(v) ==> (v@.len() == 20 ==> base32_of_20(v@) == input@) && v@.len() <= 20,
{
    data_encoding::BASE32.decode(input).ok()
}

} // verus!
