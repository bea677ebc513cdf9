//! The I/O capability: positional read, append-only write, and fsync on a
//! single file, modelled as a sequence of bytes.
//!
//! The engine and its segments reach storage only through this trait. A
//! file-backed implementation lives with the embedding program; `MemIO`
//! below backs a segment with plain memory and is what the tests run on.

use vstd::prelude::*;
use crate::error::E;
use crate::error::R;
use crate::wire::sub_vec;

verus! {

/// A handle on one append-only file.
///
/// `contents` is the file's bytes. Reads are positional and exact: a read
/// either returns precisely the requested range or fails. Writes append at
/// the end. `open_new` derives a fresh, empty sibling file for a new
/// segment id from the same capability.
pub trait IOManager: Sized {
    /// The bytes the file currently holds. An implementation overrides
    /// this with its own model; the default stands for an empty file.
    open spec fn contents(&self) -> Seq<u8> {
        Seq::<u8>::empty()
    }

    /// Read exactly `len` bytes starting at byte `offset`. Does not move
    /// any write cursor; concurrent appends do not affect a read below
    /// the current length.
    fn read(&self, offset: u64, len: usize) -> (r: R<Vec<u8>>)
        ensures
            match r {
                Ok(bytes) => {
                    &&& offset as int + len as int <= self.contents().len()
                    &&& bytes@ == self.contents().subrange(
                        offset as int,
                        offset as int + len as int,
                    )
                },
                Err(e) => e == E::Failed2ReadFromDataFile,
            },
    ;

    /// Append `buf` at the end of the file; either all of it is written
    /// or the file is unchanged.
    fn write(&mut self, buf: &Vec<u8>) -> (r: R<usize>)
        ensures
            match r {
                Ok(n) => {
                    &&& n == buf@.len()
                    &&& final(self).contents() == old(self).contents() + buf@
                },
                Err(e) => {
                    &&& e == E::Failed2Write2DataFile
                    &&& final(self).contents() == old(self).contents()
                },
            },
    ;

    /// Flush all written bytes to durable storage.
    fn sync(&self) -> (r: R<()>)
        ensures
            r is Err ==> r->Err_0 == E::Failed2SyncDataFile,
    ;

    /// Open a fresh, empty file for the segment with the given id, next
    /// to the file this capability holds.
    fn open_new(&self, file_id: u32) -> (r: R<Self>)
        ensures
            match r {
                Ok(io) => io.contents() == Seq::<u8>::empty(),
                Err(e) => e == E::CanNotOpenOrCreateDateFile,
            },
    ;

    /// The file's current length in bytes.
    fn content_length(&self) -> (r: usize)
        ensures
            r == self.contents().len(),
    ;
}

/// An in-memory file: the whole capability contract, backed by a vector.
pub struct MemIO {
    data: Vec<u8>,
}

impl MemIO {
    /// An empty file.
    pub fn new() -> (r: Self)
        ensures
            r.contents() == Seq::<u8>::empty(),
    {
        MemIO { data: Vec::new() }
    }

    /// A file that already holds `data`.
    pub fn from_bytes(data: Vec<u8>) -> (r: Self)
        ensures
            r.contents() == data@,
    {
        MemIO { data }
    }
}

impl IOManager for MemIO {
    closed spec fn contents(&self) -> Seq<u8> {
        self.data@
    }

    fn read(&self, offset: u64, len: usize) -> (r: R<Vec<u8>>) {
        let n: usize = self.data.len();
        if offset > n as u64 || len as u64 > n as u64 - offset {
            return Err(E::Failed2ReadFromDataFile);
        }
        let start = offset as usize;
        Ok(sub_vec(&self.data, start, start + len))
    }

    fn write(&mut self, buf: &Vec<u8>) -> (r: R<usize>) {
        let mut tail = buf.clone();
        self.data.append(&mut tail);
        Ok(buf.len())
    }

    fn sync(&self) -> (r: R<()>) {
        Ok(())
    }

    fn open_new(&self, _file_id: u32) -> (r: R<Self>) {
        Ok(MemIO::new())
    }

    fn content_length(&self) -> (r: usize) {
        self.data.len()
    }
}

} // verus!
