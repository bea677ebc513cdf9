//! The value side of the in-memory key directory: where on disk the most
//! recent entry for a key lives.

use vstd::prelude::*;

verus! {

/// The disk location of one entry: which segment holds it, how many bytes
/// its encoding takes, where in the segment it starts, and its timestamp.
#[derive(Copy, Clone, Debug, Eq, PartialEq, Structural)]
pub struct MetaData {
    /// Id of the segment that holds the entry.
    pub file_id: u32,

    /// Full encoded size of the entry in bytes.
    pub entry_sz: usize,

    /// Byte offset of the entry's first byte within its segment.
    pub entry_start_pos: usize,

    /// Timestamp of the entry, in milliseconds since the Unix epoch.
    pub tstamp: u64,
}

impl MetaData {
    pub fn new(file_id: u32, value_sz: usize, value_pos: usize, tstamp: u64) -> (r: Self)
        ensures
            r == (MetaData {
                file_id,
                entry_sz: value_sz,
                entry_start_pos: value_pos,
                tstamp,
            }),
    {
        Self { file_id, entry_sz: value_sz, entry_start_pos: value_pos, tstamp }
    }

    pub fn file_id(&self) -> (r: u32)
        ensures
            r == self.file_id,
    {
        self.file_id
    }

    pub fn value_sz(&self) -> (r: usize)
        ensures
            r == self.entry_sz,
    {
        self.entry_sz
    }

    pub fn value_pos(&self) -> (r: usize)
        ensures
            r == self.entry_start_pos,
    {
        self.entry_start_pos
    }

    pub fn tstamp(&self) -> (r: u64)
        ensures
            r == self.tstamp,
    {
        self.tstamp
    }
}

} // verus!
