use vstd::prelude::*;

verus! {

/// Every observable failure of the store, as one distinct kind per cause.
#[derive(Debug, Clone, Copy, PartialEq, Eq, Structural)]
pub enum E {
    Failed2ReadFromDataFile,
    Failed2Write2DataFile,
    Failed2SyncDataFile,
    Failed2OpenDataFile,
    EmptyKey,
    Failed2UpdateMemIndex,
    DataCorrupted,
    EmptyValue,
    CanNotOpenOrCreateDateFile,
    CanNotWriteOldFile,
    Nil,
    KeyNotExist,
    DirPathIsEmpty,
    Failed2CreateDataDir,
    CouldNotOpenDataDir,
    Failed2ReadDBDir,
}

pub type R<T> = Result<T, E>;

impl E {
    /// A human-readable description of the error.
    pub fn message(&self) -> (r: &'static str)
        ensures
            r@.len() > 0,
    {
        proof {
            reveal_strlit("failed to read from data file");
            reveal_strlit("failed to write to data file");
            reveal_strlit("failed to sync data file");
            reveal_strlit("failed to open data file");
            reveal_strlit("key is empty and it's illegal");
            reveal_strlit("mem index update failed");
            reveal_strlit("data is corrupted");
            reveal_strlit("value is empty and it's illegal");
            reveal_strlit("cannot open or create data file");
            reveal_strlit("cannot write old file, it's immutable");
            reveal_strlit("key not exist so the value is nil");
            reveal_strlit("key not exist");
            reveal_strlit("dir path is empty");
            reveal_strlit("failed to create data dir");
            reveal_strlit("could not open data dir");
            reveal_strlit("could not read database datafile dir");
        }
        match self {
            E::Failed2ReadFromDataFile => "failed to read from data file",
            E::Failed2Write2DataFile => "failed to write to data file",
            E::Failed2SyncDataFile => "failed to sync data file",
            E::Failed2OpenDataFile => "failed to open data file",
            E::EmptyKey => "key is empty and it's illegal",
            E::Failed2UpdateMemIndex => "mem index update failed",
            E::DataCorrupted => "data is corrupted",
            E::EmptyValue => "value is empty and it's illegal",
            E::CanNotOpenOrCreateDateFile => "cannot open or create data file",
            E::CanNotWriteOldFile => "cannot write old file, it's immutable",
            E::Nil => "key not exist so the value is nil",
            E::KeyNotExist => "key not exist",
            E::DirPathIsEmpty => "dir path is empty",
            E::Failed2CreateDataDir => "failed to create data dir",
            E::CouldNotOpenDataDir => "could not open data dir",
            E::Failed2ReadDBDir => "could not read database datafile dir",
        }
    }
}

} // verus!
