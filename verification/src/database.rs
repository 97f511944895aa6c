//! The store and the modules built around it.
use vstd::prelude::*;
use vstd::slice::slice_to_vec;
use std::marker::PhantomData;
use crate::database::cursor::keys_encoded;
use crate::database::keyspace::{
    lemma_lower_bound_range, lookup, lower_bound, ordered, stored, Keyspace,
};
use crate::database::options::ReadOptions;
use crate::database::serializable::Serializable;

pub mod comparator;
pub mod cursor;
pub mod iterator;
pub mod keyspace;
pub mod options;
pub mod serializable;
pub mod snapshots;

verus! {

/// What a read with `options` observes of a store that holds `live`: the
/// frozen view of the snapshot that the options name, else the store as it stands.
pub open spec fn observed<K: Serializable>(
    live: Seq<(Seq<u8>, Seq<u8>)>,
    options: ReadOptions<'_, K>,
) -> Seq<(Seq<u8>, Seq<u8>)> {
    match options.snapshot {
        Some(snapshot) => snapshot@,
        None => live,
    }
}

/// Storing under an encoded key keeps every raw key an encoded key.
pub proof fn lemma_stored_encoded<K: Serializable>(
    s: Seq<(Seq<u8>, Seq<u8>)>,
    key: Seq<u8>,
    value: Seq<u8>,
)
    requires
        keys_encoded::<K>(s),
        K::decodable(key),
        K::decoded(key).encoded() == key,
    ensures
        keys_encoded::<K>(stored(s, key, value)),
{
    lemma_lower_bound_range(s, key);
    let p = lower_bound(s, key);
    let t = stored(s, key, value);
    assert forall|i: int| 0 <= i < t.len() implies K::decodable(#[trigger] t[i].0) && K::decoded(
        t[i].0,
    ).encoded() == t[i].0 by {
        if i < p {
            assert(t[i] == s[i]);
        } else if i > p {
            if p < s.len() && s[p].0 == key {
                assert(t[i] == s[i]);
            } else {
                assert(t[i] == s[i - 1]);
            }
        }
    }
}

/// A store with keys of type `K`: an ordered keyspace held in memory.
pub struct Database<K: Serializable> {
    table: Keyspace,
    codec: PhantomData<K>,
}

impl<K: Serializable> View for Database<K> {
    type V = Seq<(Seq<u8>, Seq<u8>)>;

    closed spec fn view(&self) -> Seq<(Seq<u8>, Seq<u8>)> {
        self.table@
    }
}

impl<K: Serializable> Database<K> {
    /// The entries stand in order and every raw key is an encoded `K`.
    pub open spec fn wf(&self) -> bool {
        &&& ordered(self@)
        &&& keys_encoded::<K>(self@)
    }

    /// An empty store.
    pub fn new() -> (database: Database<K>)
        ensures
            database@ == Seq::<(Seq<u8>, Seq<u8>)>::empty(),
            database.wf(),
    {
        Database { table: Keyspace::new(), codec: PhantomData }
    }

    /// Stores `value` under `key`, in place of any value the key had.
    pub fn put(&mut self, key: &K, value: &[u8])
        requires
            old(self).wf(),
        ensures
            final(self)@ == stored(old(self)@, key.encoded(), value@),
            final(self).wf(),
    {
        proof {
            key.round_trip();
            lemma_stored_encoded::<K>(self@, key.encoded(), value@);
        }
        self.table.put(key.as_u8(), slice_to_vec(value));
    }

    /// The table that a read with `options` walks.
    pub(crate) fn table_for<'a>(&'a self, options: &ReadOptions<'a, K>) -> (table: &'a Keyspace)
        requires
            self.wf(),
            options.wf(),
        ensures
            table@ == observed(self@, *options),
            table.wf(),
            keys_encoded::<K>(table@),
    {
        match options.snapshot {
            Some(snapshot) => snapshot.table(),
            None => &self.table,
        }
    }

    /// The value stored under `key` in what a read with `options` observes.
    pub fn get<'a>(&'a self, options: ReadOptions<'a, K>, key: &K) -> (found: Option<Vec<u8>>)
        requires
            self.wf(),
            options.wf(),
        ensures
            match found {
                Some(value) => lookup(observed(self@, options), key.encoded()) == Some(value@),
                None => lookup(observed(self@, options), key.encoded()) is None,
            },
    {
        let raw_key = key.as_u8();
        match self.table_for(&options).get(raw_key.as_slice()) {
            Some(value) => Some(slice_to_vec(value)),
            None => None,
        }
    }
}

} // verus!
