//! The peer handshake: protocol name, extension bits, info hash, peer id.
use crate::metainfo::InfoHash;
use crate::peer::{Extensions, PeerId};
use vstd::prelude::*;

verus! {

/// The protocol name of a handshake, after its length byte.
pub open spec fn protocol() -> Seq<u8> {
    seq![
        19u8, 66u8, 105u8, 116u8, 84u8, 111u8, 114u8, 114u8, 101u8, 110u8, 116u8, 32u8, 112u8,
        114u8, 111u8, 116u8, 111u8, 99u8, 111u8, 108u8,
    ]
}

/// The length byte and the text `BitTorrent protocol`.
pub fn protocol_bytes() -> (r: [u8; 20])
    ensures
        r@ == protocol(),
{
    let r: [u8; 20] = [
        19, 66, 105, 116, 84, 111, 114, 114, 101, 110, 116, 32, 112, 114, 111, 116, 111, 99, 111,
        108,
    ];
    assert(r@ =~= protocol());
    r
}

/// The handshake we send to a peer.
pub struct Handshake<'a> {
    pub extensions: Extensions,
    pub info_hash: &'a InfoHash,
    pub peer_id: &'a PeerId,
}

/// What a peer's handshake tells.
#[derive(Debug)]
pub struct HandshakeResult {
    pub extensions: Extensions,
    pub info_hash: InfoHash,
    pub peer_id: PeerId,
}

/// Why a peer's handshake was refused.
#[derive(Debug, Clone, Copy, PartialEq, Eq, Structural)]
pub enum HandshakeError {
    /// It does not start with the protocol name.
    InvalidProtocol,
    /// It is for another torrent.
    InfoHashMismatch,
}

/// The bytes of a handshake.
pub open spec fn handshake_bytes(ext: Seq<u8>, info_hash: Seq<u8>, peer_id: Seq<u8>) -> Seq<u8> {
    protocol() + ext + info_hash + peer_id
}

/// Appends the bytes of `b`.
pub fn append_bytes(out: &mut Vec<u8>, b: &[u8])
    ensures
        final(out)@ == old(out)@ + b@,
{
    let mut i: usize = 0;
    while i < b.len()
        invariant
            i <= b@.len(),
            out@ == old(out)@ + b@.take(i as int),
        decreases b@.len() - i,
    {
        out.push(b[i]);
        i = i + 1;
        assert(out@ =~= old(out)@ + b@.take(i as int));
    }
    assert(b@.take(b@.len() as int) =~= b@);
}

/// Copies `n` bytes of `b` from `off` into a fresh array.
fn take_array_8(b: &[u8], off: usize) -> (r: [u8; 8])
    requires
        off + 8 <= b@.len(),
    ensures
        r@ == b@.subrange(off as int, off + 8),
{
    let mut r = [0u8; 8];
    let mut i: usize = 0;
    let len = b.len();
    while i < 8
        invariant
            len == b@.len(),
            i <= 8,
            off + 8 <= b@.len(),
            forall|j: int| 0 <= j < i ==> r@[j] == b@[off + j],
        decreases 8 - i,
    {
        r[i] = b[off + i];
        i = i + 1;
    }
    assert(r@ =~= b@.subrange(off as int, off + 8));
    r
}

/// Copies twenty bytes of `b` from `off` into a fresh array.
pub fn take_array_20(b: &[u8], off: usize) -> (r: [u8; 20])
    requires
        off + 20 <= b@.len(),
    ensures
        r@ == b@.subrange(off as int, off + 20),
{
    let mut r = [0u8; 20];
    let mut i: usize = 0;
    let len = b.len();
    while i < 20
        invariant
            len == b@.len(),
            i <= 20,
            off + 20 <= b@.len(),
            forall|j: int| 0 <= j < i ==> r@[j] == b@[off + j],
        decreases 20 - i,
    {
        r[i] = b[off + i];
        i = i + 1;
    }
    assert(r@ =~= b@.subrange(off as int, off + 20));
    r
}

/// Whether two twenty-byte strings are equal.
pub fn same_20(a: &[u8; 20], b: &[u8; 20]) -> (r: bool)
    ensures
        r == (a@ == b@),
{
    let mut i: usize = 0;
    while i < 20
        invariant
            i <= 20,
            forall|j: int| 0 <= j < i ==> a@[j] == b@[j],
        decreases 20 - i,
    {
        if a[i] != b[i] {
            return false;
        }
        i = i + 1;
    }
    assert(a@ =~= b@);
    true
}

impl<'a> Handshake<'a> {
    /// A handshake for a torrent, with no extension announced.
    pub fn new(info_hash: &'a InfoHash, peer_id: &'a PeerId) -> (r: Self)
        ensures
            r.extensions.0@ == Seq::new(8, |i: int| 0u8),
            r.info_hash == info_hash,
            r.peer_id == peer_id,
    {
        let r = Self::with_extensions(info_hash, peer_id, Extensions([0u8; 8]));
        assert(r.extensions.0@ =~= Seq::new(8, |i: int| 0u8));
        r
    }

    /// A handshake for a torrent announcing `extensions`.
    pub fn with_extensions(info_hash: &'a InfoHash, peer_id: &'a PeerId, extensions: Extensions) -> (r: Self)
        ensures
            r.extensions == extensions,
            r.info_hash == info_hash,
            r.peer_id == peer_id,
    {
        Self { extensions, info_hash, peer_id }
    }

    /// Announces the extension protocol (bit `0x10` of byte 5), or stops
    /// announcing it.
    pub fn set_extended(&mut self, enable: bool)
        ensures
            final(self).info_hash == old(self).info_hash,
            final(self).peer_id == old(self).peer_id,
            final(self).extensions.0@ == old(self).extensions.0@.update(
                5,
                if enable {
                    old(self).extensions.0@[5] | 0x10
                } else {
                    old(self).extensions.0@[5] & !0x10u8
                },
            ),
    {
        let b = self.extensions.0[5];
        if enable {
            self.extensions.0[5] = b | 0x10;
        } else {
            self.extensions.0[5] = b & !0x10u8;
        }
        assert(self.extensions.0@ =~= old(self).extensions.0@.update(
            5,
            if enable {
                old(self).extensions.0@[5] | 0x10
            } else {
                old(self).extensions.0@[5] & !0x10u8
            },
        ));
    }

    /// Appends the sixty-eight bytes of the handshake: the protocol name,
    /// the extension bytes, the info hash and our peer id.
    pub fn write(&self, out: &mut Vec<u8>)
        ensures
            final(out)@ == old(out)@ + handshake_bytes(self.extensions.0@, self.info_hash@, self.peer_id@),
    {
        let p = protocol_bytes();
        append_bytes(out, &p);
        append_bytes(out, &self.extensions.0);
        append_bytes(out, &self.info_hash.0);
        append_bytes(out, self.peer_id);
        assert(out@ =~= old(out)@ + handshake_bytes(self.extensions.0@, self.info_hash@, self.peer_id@));
    }

    /// Reads the sixty-eight bytes of the peer's handshake, which must name
    /// the protocol and our torrent.
    pub fn read(&self, buf: &[u8; 68]) -> (r: Result<HandshakeResult, HandshakeError>)
        ensures
            buf@.subrange(0, 20) != protocol() ==> r == Err::<HandshakeResult, HandshakeError>(
                HandshakeError::InvalidProtocol,
            ),
            buf@.subrange(0, 20) == protocol() && buf@.subrange(28, 48) != self.info_hash@ ==> r
                == Err::<HandshakeResult, HandshakeError>(HandshakeError::InfoHashMismatch),
            buf@.subrange(0, 20) == protocol() && buf@.subrange(28, 48) == self.info_hash@ ==> (r matches Ok(
                res,
            ) && res.extensions.0@ == buf@.subrange(20, 28) && res.info_hash@ == buf@.subrange(28, 48)
                && res.peer_id@ == buf@.subrange(48, 68)),
    {
        let p = protocol_bytes();
        let head = take_array_20(buf, 0);
        if !same_20(&head, &p) {
            return Err(HandshakeError::InvalidProtocol);
        }
        let result = HandshakeResult {
            extensions: Extensions(take_array_8(buf, 20)),
            info_hash: InfoHash(take_array_20(buf, 28)),
            peer_id: take_array_20(buf, 48),
        };
        if !same_20(&self.info_hash.0, &result.info_hash.0) {
            return Err(HandshakeError::InfoHashMismatch);
        }
        Ok(result)
    }
}

/// What we write is a handshake that we read back as ours: the protocol
/// name, our torrent, our extension bytes and our peer id.
pub proof fn law_handshake_roundtrip(ext: Seq<u8>, info_hash: Seq<u8>, peer_id: Seq<u8>)
    requires
        ext.len() == 8,
        info_hash.len() == 20,
        peer_id.len() == 20,
    ensures
        handshake_bytes(ext, info_hash, peer_id).len() == 68,
        handshake_bytes(ext, info_hash, peer_id).subrange(0, 20) == protocol(),
        handshake_bytes(ext, info_hash, peer_id).subrange(20, 28) == ext,
        handshake_bytes(ext, info_hash, peer_id).subrange(28, 48) == info_hash,
        handshake_bytes(ext, info_hash, peer_id).subrange(48, 68) == peer_id,
{
    let h = handshake_bytes(ext, info_hash, peer_id);
    assert(h.subrange(0, 20) =~= protocol());
    assert(h.subrange(20, 28) =~= ext);
    assert(h.subrange(28, 48) =~= info_hash);
    assert(h.subrange(48, 68) =~= peer_id);
}

} // verus!
