//! Snapshots.
//!
//! A snapshot is the store as it was at one point in time. Reads through it
//! observe that state whatever is stored afterwards.
use vstd::prelude::*;
use vstd::slice::slice_to_vec;
use std::marker::PhantomData;
use crate::database::cursor::{keys_encoded, Cursor};
use crate::database::iterator::{Iterable, Iterator, KeyIterator, ValueIterator};
use crate::database::keyspace::{lemma_lookup_stored, lookup, ordered, stored, Keyspace};
use crate::database::observed;
use crate::database::options::ReadOptions;
use crate::database::serializable::{lemma_encoded_injective, Serializable};
use crate::database::Database;

verus! {

/// The frozen view that a snapshot owns.
struct RawSnapshot {
    table: Keyspace,
}

/// A store at one point in time, open to every read operation.
pub struct Snapshot<K: Serializable> {
    raw: RawSnapshot,
    codec: PhantomData<K>,
}

impl<K: Serializable> View for Snapshot<K> {
    type V = Seq<(Seq<u8>, Seq<u8>)>;

    closed spec fn view(&self) -> Seq<(Seq<u8>, Seq<u8>)> {
        self.raw.table@
    }
}

/// Stores of which a snapshot can be taken.
pub trait Snapshots<K: Serializable> {
    /// What the store holds.
    spec fn contents(&self) -> Seq<(Seq<u8>, Seq<u8>)>;

    /// The store is well formed.
    spec fn intact(&self) -> bool;

    /// Freezes the store as it stands.
    fn snapshot(&self) -> (snapshot: Snapshot<K>)
        requires
            self.intact(),
        ensures
            snapshot@ == self.contents(),
            snapshot.wf(),
    ;
}

impl<K: Serializable> Snapshots<K> for Database<K> {
    open spec fn contents(&self) -> Seq<(Seq<u8>, Seq<u8>)> {
        self@
    }

    open spec fn intact(&self) -> bool {
        self.wf()
    }

    fn snapshot(&self) -> (snapshot: Snapshot<K>) {
        let options = ReadOptions::new();
        let table = self.table_for(&options).copy();
        Snapshot { raw: RawSnapshot { table }, codec: PhantomData }
    }
}

impl<K: Serializable> Snapshot<K> {
    /// The entries stand in order and every raw key is an encoded `K`.
    pub open spec fn wf(&self) -> bool {
        &&& ordered(self@)
        &&& keys_encoded::<K>(self@)
    }

    /// The frozen table.
    pub(crate) fn table(&self) -> (table: &Keyspace)
        ensures
            table@ == self@,
    {
        &self.raw.table
    }

    /// The value that the store held under `key` when the snapshot was
    /// taken. A snapshot named in `options` gives way to this one.
    pub fn get<'a>(&'a self, options: ReadOptions<'a, K>, key: &K) -> (found: Option<Vec<u8>>)
        requires
            self.wf(),
        ensures
            match found {
                Some(value) => lookup(self@, key.encoded()) == Some(value@),
                None => lookup(self@, key.encoded()) is None,
            },
    {
        let raw_key = key.as_u8();
        match self.pinned(options).table().get(raw_key.as_slice()) {
            Some(value) => Some(slice_to_vec(value)),
            None => None,
        }
    }

    /// The snapshot that a read through this snapshot observes, whatever
    /// snapshot `options` name: this one.
    fn pinned<'a>(&'a self, options: ReadOptions<'a, K>) -> (snapshot: &'a Snapshot<K>)
        ensures
            snapshot@ == self@,
    {
        let mut options = options;
        options.snapshot = Some(self);
        match options.snapshot {
            Some(snapshot) => snapshot,
            None => self,
        }
    }
}

impl<'a, K: Serializable + Ord + 'a> Iterable<'a, K> for Snapshot<K> {
    open spec fn shown(&self, options: ReadOptions<'a, K>) -> Seq<(Seq<u8>, Seq<u8>)> {
        self@
    }

    open spec fn readable(&self, options: ReadOptions<'a, K>) -> bool {
        self.wf()
    }

    fn iter(&'a self, options: ReadOptions<'a, K>) -> (it: Iterator<'a, K>) {
        Iterator::over(self.pinned(options).table())
    }

    fn keys_iter(&'a self, options: ReadOptions<'a, K>) -> (it: KeyIterator<'a, K>) {
        KeyIterator::over(self.pinned(options).table())
    }

    fn value_iter(&'a self, options: ReadOptions<'a, K>) -> (it: ValueIterator<'a, K>) {
        ValueIterator::over(self.pinned(options).table())
    }
}

/// Snapshot isolation: a snapshot of a store answers, after a value has been
/// stored, what the store answered when the snapshot was taken, while the
/// store itself answers with the new value. This holds of point lookups and
/// of every traversal, whatever snapshot the read options name.
pub proof fn lemma_snapshot_isolation<'a, K: Serializable + Ord + 'a>(
    before: Database<K>,
    snapshot: Snapshot<K>,
    after: Database<K>,
    key: K,
    value: Seq<u8>,
    options: ReadOptions<'a, K>,
    probe: K,
    backward: bool,
)
    requires
        before.wf(),
        snapshot@ == before.contents(),
        after@ == stored(before@, key.encoded(), value),
    ensures
        snapshot.wf(),
        lookup(after@, key.encoded()) == Some(value),
        lookup(snapshot.shown(options), probe.encoded()) == lookup(before@, probe.encoded()),
        probe != key ==> lookup(snapshot.shown(options), probe.encoded()) == lookup(
            after@,
            probe.encoded(),
        ),
        Cursor::<K>::fresh(snapshot.shown(options)).remaining(backward) == Cursor::<K>::fresh(
            before@,
        ).remaining(backward),
        options.snapshot == Some(&snapshot) ==> observed(after@, options) == before@,
{
    lemma_lookup_stored(before@, key.encoded(), value, key.encoded());
    lemma_lookup_stored(before@, key.encoded(), value, probe.encoded());
    if probe.encoded() == key.encoded() {
        lemma_encoded_injective(probe, key);
    }
}

} // verus!
