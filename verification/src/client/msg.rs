//! Messages that encode themselves into a buffer of their own length.
use crate::bitfield::{bit_of, BitField};
use crate::msg::be32;
use vstd::prelude::*;

verus! {

/// A message that knows its encoding.
pub trait Message {
    /// The encoding of the message.
    spec fn spec_encoded(&self) -> Seq<u8>;

    /// Whether the message can be encoded (its length fits the wire
    /// format).
    spec fn encodable(&self) -> bool;

    /// Whether the message can take its content from `buf`.
    spec fn decodable(&self, buf: Seq<u8>) -> bool;

    /// The length of the encoding.
    fn len(&self) -> (r: usize)
        requires
            self.encodable(),
        ensures
            r == self.spec_encoded().len(),
    ;

    /// The encoding, in a fresh vector.
    fn encode(&self) -> (r: Vec<u8>)
        requires
            self.encodable(),
        ensures
            r@ == self.spec_encoded(),
    {
        let n = self.len();
        let mut v: Vec<u8> = Vec::new();
        let mut i: usize = 0;
        while i < n
            invariant
                i <= n,
                v@.len() == i,
            decreases n - i,
        {
            v.push(0);
            i = i + 1;
        }
        let w = self.encode_buf(v.as_mut_slice());
        assert(v@.take(w as int) =~= v@);
        v
    }

    /// Writes the encoding at the start of `buf`, which must have room for
    /// it, and returns its length; the rest of `buf` is left as it is.
    fn encode_buf(&self, buf: &mut [u8]) -> (r: usize)
        requires
            self.encodable(),
            old(buf)@.len() >= self.spec_encoded().len(),
        ensures
            r == self.spec_encoded().len(),
            final(buf)@.len() == old(buf)@.len(),
            final(buf)@.take(r as int) == self.spec_encoded(),
            final(buf)@.skip(r as int) == old(buf)@.skip(r as int),
    ;

    /// Takes the content of the message from `buf`.
    fn decode(&mut self, buf: &[u8])
        requires
            old(self).decodable(buf@),
    ;
}

/// The id of a bitfield message.
pub const BIT_FIELD: u8 = 5;

/// A message carrying the field of pieces a peer has.
pub struct BitFieldMessage {
    pub field: BitField,
}

impl BitFieldMessage {
    /// A message of a field of `len` clear bits.
    pub fn new(len: usize) -> (r: Self)
        requires
            len <= usize::MAX - 8,
        ensures
            r.field.wf(),
            r.field@ == Seq::new(len as nat, |i: int| false),
    {
        Self { field: BitField::new(len) }
    }
}

impl Message for BitFieldMessage {
    /// The byte length of the field as four big-endian bytes, the id, then
    /// the bytes of the field.
    open spec fn spec_encoded(&self) -> Seq<u8> {
        be32(self.field.spec_bytes().len() as u32) + seq![BIT_FIELD] + self.field.spec_bytes()
    }

    open spec fn encodable(&self) -> bool {
        self.field.wf() && self.field.spec_bytes().len() + 5 <= u32::MAX
    }

    open spec fn decodable(&self, buf: Seq<u8>) -> bool {
        self.field.wf() && buf.len() >= self.field.spec_bytes().len()
    }

    fn len(&self) -> (r: usize) {
        self.field.len_bytes() + 5
    }

    fn encode_buf(&self, buf: &mut [u8]) -> (r: usize) {
        let len = self.field.len_bytes();
        let l = len as u32;
        buf[0] = (l / 0x100_0000) as u8;
        buf[1] = (l / 0x1_0000 % 256) as u8;
        buf[2] = (l / 0x100 % 256) as u8;
        buf[3] = (l % 256) as u8;
        buf[4] = BIT_FIELD;
        let ghost head = buf@;
        assert(head.take(5) =~= be32(self.field.spec_bytes().len() as u32) + seq![BIT_FIELD]);
        let mut tmp: Vec<u8> = Vec::new();
        let mut i: usize = 0;
        while i < len
            invariant
                i <= len,
                tmp@.len() == i,
            decreases len - i,
        {
            tmp.push(0);
            i = i + 1;
        }
        self.field.write_to(tmp.as_mut_slice());
        let mut k: usize = 0;
        let blen = buf.len();
        while k < len
            invariant
                k <= len,
                blen == buf@.len(),
                buf@.len() == old(buf)@.len(),
                len + 5 <= buf@.len(),
                tmp@ == self.field.spec_bytes(),
                len == tmp@.len(),
                forall|j: int| 0 <= j < 5 ==> buf@[j] == head[j],
                forall|j: int| 0 <= j < k ==> buf@[5 + j] == tmp@[j],
                forall|j: int| 5 + len <= j < buf@.len() ==> buf@[j] == old(buf)@[j],
            decreases len - k,
        {
            buf[5 + k] = tmp[k];
            k = k + 1;
        }
        assert(buf@.take(len + 5) =~= self.spec_encoded());
        assert(buf@.skip(len + 5) =~= old(buf)@.skip(len + 5));
        len + 5
    }

    /// Takes the bits of the field from the first bytes of `buf`.
    fn decode(&mut self, buf: &[u8])
        ensures
            final(self).field.wf(),
            final(self).field@ == Seq::new(old(self).field@.len(), |i: int| bit_of(buf@, i)),
    {
        self.field.copy_from(buf);
    }
}

} // verus!
