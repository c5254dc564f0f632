//! Where the bytes of a torrent's files are kept.
use crate::metainfo::{Torrent, TorrentFile};
use vstd::prelude::*;

verus! {

/// A place that keeps the files of torrents.
pub trait Storage {
    type Unit: StorageUnit;

    /// The unit that keeps one file of a torrent.
    fn get_unit(&self, torrent: &Torrent, file: &TorrentFile) -> Self::Unit;
}

/// What keeps the bytes of one file.
pub trait StorageUnit {
    /// How many bytes it can hold.
    fn capacity(&self) -> usize;

    /// How many bytes it holds.
    fn len(&self) -> usize;
}

/// Files kept under a root directory.
pub struct FileSystemStorage {
    pub root_dir: String,
}

/// One file kept on the file system, of a given capacity.
pub struct FileSystemStorageUnit {
    pub capacity: usize,
}

impl FileSystemStorageUnit {
    /// How many bytes the file can hold.
    pub fn capacity(&self) -> (r: usize)
        ensures
            r == self.capacity,
    {
        self.capacity
    }
}

} // verus!
