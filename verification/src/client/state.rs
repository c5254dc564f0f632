//! What we know of a connected peer: whether it chokes us and which pieces
//! it has.
use crate::bitfield::{bit_of, BitField};
use crate::msg::Message;
use vstd::prelude::*;

verus! {

/// The state of a peer connection.
pub struct Client {
    /// Whether the peer chokes us (it does until it says otherwise).
    pub choked: bool,
    /// The pieces the peer has.
    pub bitfield: BitField,
}

impl Client {
    /// A fresh connection: choked, no piece known.
    pub fn new() -> (r: Self)
        ensures
            r.choked,
            r.bitfield.wf(),
            r.bitfield@.len() == 0,
    {
        Client { choked: true, bitfield: BitField::default() }
    }

    /// Takes in a message from the peer, with its payload (the bitfield
    /// bytes of a `Bitfield` message, else nothing): choke state and piece
    /// knowledge are kept here, and any other message is handed back.
    pub fn handle(&mut self, msg: Message, payload: Vec<u8>) -> (r: Option<Message>)
        requires
            old(self).bitfield.wf(),
            msg is Bitfield ==> payload@.len() <= usize::MAX / 8,
        ensures
            final(self).bitfield.wf(),
            match msg {
                Message::Choke => r is None && final(self).choked && final(self).bitfield@ == old(self).bitfield@,
                Message::Unchoke => r is None && !final(self).choked && final(self).bitfield@ == old(self).bitfield@,
                Message::Bitfield { .. } => r is None && final(self).choked == old(self).choked
                    && final(self).bitfield@ == Seq::new(8 * payload@.len(), |i: int| bit_of(payload@, i)),
                Message::Have { index } => r is None && final(self).choked == old(self).choked && (if (index as int) < old(self).bitfield@.len() {
                    final(self).bitfield@ == old(self).bitfield@.update(index as int, true)
                } else {
                    final(self).bitfield@ == old(self).bitfield@
                }),
                _ => r == Some(msg) && final(self).choked == old(self).choked && final(self).bitfield@ == old(self).bitfield@,
            },
    {
        match msg {
            Message::Choke => {
                self.choked = true;
                None
            },
            Message::Unchoke => {
                self.choked = false;
                None
            },
            Message::Bitfield { .. } => {
                self.bitfield = BitField::from_bytes(payload);
                None
            },
            Message::Have { index } => {
                self.bitfield.set(index as usize, true);
                None
            },
            _ => Some(msg),
        }
    }
}

} // verus!
