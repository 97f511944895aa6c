//! The sorted table behind a store and behind every frozen view of it.
//!
//! A [`Keyspace`] holds entries of raw key and raw value in the order of
//! [`precedes`], no key twice. Its view is the sequence of those entries, and
//! everything a cursor or a point lookup observes is stated over that
//! sequence.
use vstd::prelude::*;
use vstd::slice::slice_to_vec;
use crate::database::comparator::{
    bytes_equal, bytes_precede, lemma_not_precedes, lemma_precedes_asymmetric,
    lemma_precedes_transitive, precedes,
};

verus! {

/// The keys of `s` rise strictly from entry to entry.
pub open spec fn ordered(s: Seq<(Seq<u8>, Seq<u8>)>) -> bool {
    forall|i: int, j: int|
        #![trigger s[i], s[j]]
        0 <= i < j < s.len() ==> precedes(s[i].0, s[j].0)
}

/// The first place at or after `i` whose key does not come before `target`.
pub open spec fn seek_from(s: Seq<(Seq<u8>, Seq<u8>)>, target: Seq<u8>, i: int) -> int
    decreases s.len() - i,
{
    if 0 <= i < s.len() && precedes(s[i].0, target) {
        seek_from(s, target, i + 1)
    } else {
        i
    }
}

/// Where a seek for `target` lands: the first entry whose key is `target` or
/// comes after it, and `s.len()` when there is none.
pub open spec fn lower_bound(s: Seq<(Seq<u8>, Seq<u8>)>, target: Seq<u8>) -> int {
    seek_from(s, target, 0)
}

/// `p` parts `s` into the keys before `target` and the keys not before it.
pub open spec fn parts_at(s: Seq<(Seq<u8>, Seq<u8>)>, target: Seq<u8>, p: int) -> bool {
    &&& 0 <= p <= s.len()
    &&& forall|j: int| 0 <= j < p ==> precedes(#[trigger] s[j].0, target)
    &&& forall|j: int| p <= j < s.len() ==> !precedes(#[trigger] s[j].0, target)
}

/// The value stored under `key`, if the key is present.
pub open spec fn lookup(s: Seq<(Seq<u8>, Seq<u8>)>, key: Seq<u8>) -> Option<Seq<u8>> {
    let p = lower_bound(s, key);
    if p < s.len() && s[p].0 == key {
        Some(s[p].1)
    } else {
        None
    }
}

/// `s` with `value` stored under `key`: in place of the old value when the
/// key is present, else as a new entry at the key's place in the order.
pub open spec fn stored(s: Seq<(Seq<u8>, Seq<u8>)>, key: Seq<u8>, value: Seq<u8>) -> Seq<
    (Seq<u8>, Seq<u8>),
> {
    let p = lower_bound(s, key);
    if p < s.len() && s[p].0 == key {
        s.update(p, (key, value))
    } else {
        s.insert(p, (key, value))
    }
}

proof fn lemma_seek_from(s: Seq<(Seq<u8>, Seq<u8>)>, target: Seq<u8>, i: int)
    requires
        0 <= i <= s.len(),
    ensures
        i <= seek_from(s, target, i) <= s.len(),
        forall|j: int| i <= j < seek_from(s, target, i) ==> precedes(#[trigger] s[j].0, target),
        seek_from(s, target, i) < s.len() ==> !precedes(s[seek_from(s, target, i)].0, target),
    decreases s.len() - i,
{
    if i < s.len() && precedes(s[i].0, target) {
        lemma_seek_from(s, target, i + 1);
    }
}

/// A seek lands on an entry or just behind the last one.
pub proof fn lemma_lower_bound_range(s: Seq<(Seq<u8>, Seq<u8>)>, target: Seq<u8>)
    ensures
        0 <= lower_bound(s, target) <= s.len(),
{
    lemma_seek_from(s, target, 0);
}

/// In an ordered table the seek position parts the table.
pub proof fn lemma_lower_bound_parts(s: Seq<(Seq<u8>, Seq<u8>)>, target: Seq<u8>)
    requires
        ordered(s),
    ensures
        parts_at(s, target, lower_bound(s, target)),
{
    lemma_seek_from(s, target, 0);
    let p = lower_bound(s, target);
    assert forall|j: int| p <= j < s.len() implies !precedes(#[trigger] s[j].0, target) by {
        if p < j && precedes(s[j].0, target) {
            assert(precedes(s[p].0, s[j].0));
            lemma_precedes_transitive(s[p].0, s[j].0, target);
        }
    }
}

/// Only the seek position parts the table.
pub proof fn lemma_parts_at_unique(s: Seq<(Seq<u8>, Seq<u8>)>, target: Seq<u8>, p: int)
    requires
        parts_at(s, target, p),
    ensures
        p == lower_bound(s, target),
{
    lemma_seek_from(s, target, 0);
    let q = lower_bound(s, target);
    if q < p {
        assert(precedes(s[q].0, target));
    } else if p < q {
        assert(!precedes(s[p].0, target));
    }
}

/// A key is found exactly when some entry holds it, and then with that entry's value.
pub proof fn lemma_lookup_finds(s: Seq<(Seq<u8>, Seq<u8>)>, key: Seq<u8>, i: int)
    requires
        ordered(s),
        0 <= i < s.len(),
    ensures
        s[i].0 == key ==> lookup(s, key) == Some(s[i].1),
        lookup(s, s[i].0) == Some(s[i].1),
{
    let k = s[i].0;
    lemma_lower_bound_parts(s, k);
    let p = lower_bound(s, k);
    lemma_not_precedes(k, k);
    if p < i {
        assert(precedes(s[p].0, s[i].0));
    } else if i < p {
        assert(precedes(s[i].0, k));
    }
}

/// A key that no entry holds is not found.
pub proof fn lemma_lookup_misses(s: Seq<(Seq<u8>, Seq<u8>)>, key: Seq<u8>)
    ensures
        lookup(s, key) is Some ==> exists|i: int| 0 <= i < s.len() && (#[trigger] s[i]).0 == key,
{
    lemma_seek_from(s, key, 0);
}

/// Storing keeps the table ordered.
pub proof fn lemma_stored_ordered(s: Seq<(Seq<u8>, Seq<u8>)>, key: Seq<u8>, value: Seq<u8>)
    requires
        ordered(s),
    ensures
        ordered(stored(s, key, value)),
{
    lemma_lower_bound_parts(s, key);
    let p = lower_bound(s, key);
    let t = stored(s, key, value);
    if p < s.len() && s[p].0 == key {
        assert forall|i: int, j: int| 0 <= i < j < t.len() implies precedes(
            #[trigger] t[i].0,
            #[trigger] t[j].0,
        ) by {
            assert(precedes(s[i].0, s[j].0));
        }
    } else {
        assert forall|i: int, j: int| 0 <= i < j < t.len() implies precedes(
            #[trigger] t[i].0,
            #[trigger] t[j].0,
        ) by {
            if j < p {
                assert(precedes(s[i].0, s[j].0));
            } else if j == p {
                assert(precedes(s[i].0, key));
            } else if i == p {
                assert(!precedes(s[j - 1].0, key));
                lemma_not_precedes(s[j - 1].0, key);
                if s[j - 1].0 == key {
                    assert(p < j - 1);
                    assert(precedes(s[p].0, s[j - 1].0));
                    assert(!precedes(s[p].0, key));
                }
            } else if i < p {
                assert(precedes(s[i].0, s[j - 1].0));
            } else {
                assert(precedes(s[i - 1].0, s[j - 1].0));
            }
        }
    }
}

/// After storing, the key yields the new value and every other key what it yielded before.
pub proof fn lemma_lookup_stored(
    s: Seq<(Seq<u8>, Seq<u8>)>,
    key: Seq<u8>,
    value: Seq<u8>,
    probe: Seq<u8>,
)
    requires
        ordered(s),
    ensures
        lookup(stored(s, key, value), probe) == if probe == key {
            Some(value)
        } else {
            lookup(s, probe)
        },
{
    lemma_lower_bound_parts(s, key);
    lemma_lower_bound_parts(s, probe);
    lemma_stored_ordered(s, key, value);
    let p = lower_bound(s, key);
    let q = lower_bound(s, probe);
    let t = stored(s, key, value);
    lemma_not_precedes(key, probe);
    lemma_not_precedes(probe, key);
    let replaced = p < s.len() && s[p].0 == key;
    if probe == key {
        assert(t[p] == (key, value));
        lemma_lookup_finds(t, key, p);
    } else if precedes(probe, key) {
        // the probe lands before the stored entry, where nothing moved
        assert(q <= p) by {
            if p < q {
                assert(precedes(s[p].0, probe));
                lemma_precedes_transitive(s[p].0, probe, key);
            }
        }
        assert(parts_at(t, probe, q)) by {
            assert forall|j: int| 0 <= j < q implies precedes(#[trigger] t[j].0, probe) by {
                assert(t[j] == s[j]);
            }
            assert forall|j: int| q <= j < t.len() implies !precedes(#[trigger] t[j].0, probe) by {
                if precedes(t[j].0, probe) {
                    if j == p {
                        lemma_precedes_transitive(key, probe, key);
                        lemma_precedes_asymmetric(key, probe);
                    } else if replaced || j < p {
                        assert(t[j] == s[j]);
                    } else {
                        assert(t[j] == s[j - 1]);
                        assert(!precedes(s[j - 1].0, key));
                        lemma_precedes_transitive(s[j - 1].0, probe, key);
                    }
                }
            }
        }
        lemma_parts_at_unique(t, probe, q);
        if q < p {
            assert(t[q] == s[q]);
        } else {
            assert(t[q].0 == key);
            assert(q < s.len() ==> s[q].0 != probe) by {
                if q < s.len() && s[q].0 == probe {
                    assert(!precedes(s[p].0, key));
                }
            }
        }
    } else {
        // the probe lands after the stored entry
        assert(precedes(key, probe));
        assert(p <= q) by {
            if q < p {
                assert(precedes(s[q].0, key));
                assert(!precedes(s[q].0, probe));
                lemma_not_precedes(s[q].0, probe);
                if s[q].0 != probe {
                    lemma_precedes_transitive(probe, s[q].0, key);
                }
                lemma_precedes_asymmetric(key, probe);
            }
        }
        if replaced {
            assert(p < q) by {
                if p == q {
                    assert(!precedes(s[q].0, probe));
                }
            }
            assert(parts_at(t, probe, q)) by {
                assert forall|j: int| 0 <= j < q implies precedes(#[trigger] t[j].0, probe) by {
                    if j != p {
                        assert(t[j] == s[j]);
                    }
                }
                assert forall|j: int| q <= j < t.len() implies !precedes(
                    #[trigger] t[j].0,
                    probe,
                ) by {
                    assert(t[j] == s[j]);
                }
            }
            lemma_parts_at_unique(t, probe, q);
            if q < s.len() {
                assert(t[q] == s[q]);
            }
        } else {
            assert(parts_at(t, probe, q + 1)) by {
                assert forall|j: int| 0 <= j < q + 1 implies precedes(
                    #[trigger] t[j].0,
                    probe,
                ) by {
                    if j < p {
                        assert(t[j] == s[j]);
                    } else if j > p {
                        assert(t[j] == s[j - 1]);
                    }
                }
                assert forall|j: int| q + 1 <= j < t.len() implies !precedes(
                    #[trigger] t[j].0,
                    probe,
                ) by {
                    assert(t[j] == s[j - 1]);
                }
            }
            lemma_parts_at_unique(t, probe, q + 1);
            if q < s.len() {
                assert(t[q + 1] == s[q]);
            }
        }
    }
}

/// One entry of the table: a raw key and the raw value stored under it.
pub struct Entry {
    key: Vec<u8>,
    value: Vec<u8>,
}

/// Entries in the order of their keys, each key once.
pub struct Keyspace {
    entries: Vec<Entry>,
}

impl View for Keyspace {
    type V = Seq<(Seq<u8>, Seq<u8>)>;

    closed spec fn view(&self) -> Seq<(Seq<u8>, Seq<u8>)> {
        Seq::new(self.entries@.len(), |i: int| (self.entries@[i].key@, self.entries@[i].value@))
    }
}

impl Keyspace {
    /// The entries stand in order.
    pub open spec fn wf(&self) -> bool {
        ordered(self@)
    }

    /// A table without entries.
    pub fn new() -> (table: Keyspace)
        ensures
            table@ == Seq::<(Seq<u8>, Seq<u8>)>::empty(),
            table.wf(),
    {
        let table = Keyspace { entries: Vec::new() };
        assert(table@ =~= Seq::<(Seq<u8>, Seq<u8>)>::empty());
        table
    }

    /// A copy of the table as it stands.
    pub fn copy(&self) -> (table: Keyspace)
        ensures
            table@ == self@,
    {
        let mut entries: Vec<Entry> = Vec::new();
        let mut i: usize = 0;
        while i < self.entries.len()
            invariant
                i <= self.entries@.len(),
                entries@.len() == i,
                forall|j: int|
                    0 <= j < i ==> (#[trigger] entries@[j]).key@ == self.entries@[j].key@
                        && entries@[j].value@ == self.entries@[j].value@,
            decreases self.entries@.len() - i,
        {
            let key = slice_to_vec(self.entries[i].key.as_slice());
            let value = slice_to_vec(self.entries[i].value.as_slice());
            entries.push(Entry { key, value });
            i = i + 1;
        }
        let table = Keyspace { entries };
        assert(table@ =~= self@);
        table
    }

    /// The number of entries.
    pub fn len(&self) -> (n: usize)
        ensures
            n == self@.len(),
    {
        self.entries.len()
    }

    /// The key of the entry at place `i`.
    pub fn key(&self, i: usize) -> (key: &[u8])
        requires
            i < self@.len(),
        ensures
            key@ == self@[i as int].0,
    {
        self.entries[i].key.as_slice()
    }

    /// The value of the entry at place `i`.
    pub fn value(&self, i: usize) -> (value: &[u8])
        requires
            i < self@.len(),
        ensures
            value@ == self@[i as int].1,
    {
        self.entries[i].value.as_slice()
    }

    /// The place of the first entry whose key is `target` or comes after it;
    /// the number of entries when every key comes before `target`.
    pub fn seek(&self, target: &[u8]) -> (p: usize)
        requires
            self.wf(),
        ensures
            p == lower_bound(self@, target@),
            p <= self@.len(),
    {
        let mut lo: usize = 0;
        let mut hi: usize = self.entries.len();
        while lo < hi
            invariant
                self.wf(),
                lo <= hi <= self@.len(),
                forall|j: int| 0 <= j < lo ==> precedes(#[trigger] self@[j].0, target@),
                forall|j: int| hi <= j < self@.len() ==> !precedes(#[trigger] self@[j].0, target@),
            decreases hi - lo,
        {
            let mid: usize = lo + (hi - lo) / 2;
            if bytes_precede(self.key(mid), target) {
                proof {
                    assert forall|j: int| 0 <= j < mid + 1 implies precedes(
                        #[trigger] self@[j].0,
                        target@,
                    ) by {
                        if j < mid {
                            assert(precedes(self@[j].0, self@[mid as int].0));
                            lemma_precedes_transitive(self@[j].0, self@[mid as int].0, target@);
                        }
                    }
                }
                lo = mid + 1;
            } else {
                proof {
                    assert forall|j: int| mid <= j < self@.len() implies !precedes(
                        #[trigger] self@[j].0,
                        target@,
                    ) by {
                        if mid < j && precedes(self@[j].0, target@) {
                            assert(precedes(self@[mid as int].0, self@[j].0));
                            lemma_precedes_transitive(self@[mid as int].0, self@[j].0, target@);
                        }
                    }
                }
                hi = mid;
            }
        }
        proof {
            lemma_parts_at_unique(self@, target@, lo as int);
        }
        lo
    }

    /// The value stored under `key`, if any.
    pub fn get(&self, key: &[u8]) -> (found: Option<&[u8]>)
        requires
            self.wf(),
        ensures
            match found {
                Some(value) => lookup(self@, key@) == Some(value@),
                None => lookup(self@, key@) is None,
            },
    {
        let p = self.seek(key);
        if p < self.entries.len() && bytes_equal(self.key(p), key) {
            Some(self.value(p))
        } else {
            None
        }
    }

    /// Stores `value` under `key`, in place of any value the key had.
    pub fn put(&mut self, key: Vec<u8>, value: Vec<u8>)
        requires
            old(self).wf(),
        ensures
            final(self)@ == stored(old(self)@, key@, value@),
            final(self).wf(),
    {
        let p = self.seek(key.as_slice());
        let present = p < self.entries.len() && bytes_equal(self.key(p), key.as_slice());
        let ghost before = self@;
        let ghost k = key@;
        let ghost v = value@;
        if present {
            self.entries.set(p, Entry { key, value });
            assert(self@ =~= before.update(p as int, (k, v)));
        } else {
            self.entries.insert(p, Entry { key, value });
            assert(self@ =~= before.insert(p as int, (k, v)));
        }
        proof {
            lemma_stored_ordered(before, k, v);
        }
    }
}

} // verus!
