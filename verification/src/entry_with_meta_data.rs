//! A decoded entry paired with the location it was read from, as recovery
//! hands it back from a segment scan.

use vstd::prelude::*;
use crate::entry::Entry;
use crate::meta_data::MetaData;

verus! {

/// One entry together with its disk location.
#[derive(Debug)]
pub struct EntryWithMetaData {
    pub entry: Entry,
    pub meta_data: MetaData,
}

impl EntryWithMetaData {
    pub fn new(entry: Entry, meta_data: MetaData) -> (r: Self)
        ensures
            r.entry == entry,
            r.meta_data == meta_data,
    {
        EntryWithMetaData { entry, meta_data }
    }
}

} // verus!
