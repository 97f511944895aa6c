//! Options of a read.
use vstd::prelude::*;
use crate::database::serializable::Serializable;
use crate::database::snapshots::Snapshot;

verus! {

/// What a point lookup or a new cursor is asked to do.
pub struct ReadOptions<'a, K: Serializable + 'a> {
    /// Verify the checksums of what is read.
    pub verify_checksums: bool,
    /// Keep what is read in the cache.
    pub fill_cache: bool,
    /// Read the frozen view of this snapshot in place of the store as it stands.
    pub snapshot: Option<&'a Snapshot<K>>,
}

impl<'a, K: Serializable + 'a> ReadOptions<'a, K> {
    /// A snapshot that the options name is well formed.
    pub open spec fn wf(&self) -> bool {
        match self.snapshot {
            Some(snapshot) => snapshot.wf(),
            None => true,
        }
    }

    /// Options that verify no checksums, fill the cache and name no snapshot.
    pub fn new() -> (options: ReadOptions<'a, K>)
        ensures
            !options.verify_checksums,
            options.fill_cache,
            options.snapshot is None,
            options.wf(),
    {
        ReadOptions { verify_checksums: false, fill_cache: true, snapshot: None }
    }
}

} // verus!
