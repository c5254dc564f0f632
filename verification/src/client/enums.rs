//! States and kinds that a torrent client reports.
use vstd::prelude::*;

verus! {

#[derive(Debug, Clone, Copy, PartialEq, Eq, Structural)]
pub enum TrackerState {
    Okay,
    Offline,
    InvalidResponse,
}

#[derive(Debug, Clone, Copy, PartialEq, Eq, Structural)]
pub enum ListenerStatus {
    Listening,
    PortNotFree,
    NotListening,
}

#[derive(Debug, Clone, Copy, PartialEq, Eq, Structural)]
pub enum Direction {
    Neither,
    Incoming,
    Outgoing,
}

/// Download priority of a piece or file.
#[derive(Debug, Clone, Copy, PartialEq, Eq, Structural)]
pub enum Priority {
    DontDownload,
    Lowest,
    Low,
    Normal,
    High,
    Highest,
    Immediate,
}

impl Priority {
    /// The weight of the priority: zero for pieces not to download, then
    /// doubling from one at each step.
    pub fn value(&self) -> (r: u8)
        ensures
            r == match *self {
                Priority::DontDownload => 0u8,
                Priority::Lowest => 1,
                Priority::Low => 2,
                Priority::Normal => 4,
                Priority::High => 8,
                Priority::Highest => 16,
                Priority::Immediate => 32,
            },
    {
        match self {
            Priority::DontDownload => 0,
            Priority::Lowest => 1,
            Priority::Low => 2,
            Priority::Normal => 4,
            Priority::High => 8,
            Priority::Highest => 16,
            Priority::Immediate => 32,
        }
    }
}

#[derive(Debug, Clone, Copy, PartialEq, Eq, Structural)]
pub enum TorrentEvent {
    NoEvent,
    Started,
    Stopped,
    Completed,
}

#[derive(Debug, Clone, Copy, PartialEq, Eq, Structural)]
pub enum PeerListType {
    NascentPeers,
    CandidatePeers,
    OptimisticUnchokeCandidatePeers,
}

} // verus!
