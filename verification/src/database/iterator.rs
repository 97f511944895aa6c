//! Iterators over the keyspace.
//!
//! An iterator walks the entries that a store or a snapshot held when the
//! iterator was made. [`Iterator`] and [`RevIterator`] yield whole entries,
//! forward and backward; the key and value iterators yield one half of each
//! entry. All of them are driven through [`LevelDBIterator`], and what any
//! of them does is stated over its [`Cursor`].
use vstd::prelude::*;
use vstd::slice::slice_to_vec;
use crate::database::cursor::{
    keys_encoded, lawful_order, limit_reached, motion, range_end, turning, valid_at, Cursor, Jump,
    Motion, Turn,
};
use crate::database::keyspace::{ordered, Keyspace};
use crate::database::observed;
use crate::database::options::ReadOptions;
use crate::database::serializable::{from_u8, Serializable};
use crate::database::Database;

verus! {

/// The key that an optional reference points to.
pub open spec fn referent<K>(key: Option<&K>) -> Option<K> {
    match key {
        Some(k) => Some(*k),
        None => None,
    }
}

/// The raw cursor: a place among the entries of one table.
pub struct RawIterator<'a> {
    table: &'a Keyspace,
    pos: usize,
}

impl<'a> RawIterator<'a> {
    /// The entries that the raw cursor walks.
    pub closed spec fn entries(&self) -> Seq<(Seq<u8>, Seq<u8>)> {
        self.table@
    }

    /// The place of the raw cursor; the number of entries when it is at none.
    pub closed spec fn position(&self) -> int {
        self.pos as int
    }

    /// The entries are ordered and the place is an entry's or none.
    pub open spec fn wf(&self) -> bool {
        &&& ordered(self.entries())
        &&& 0 <= self.position() <= self.entries().len()
    }

    /// A raw cursor on `table`, at its first entry.
    pub fn new(table: &'a Keyspace) -> (raw: RawIterator<'a>)
        requires
            table.wf(),
        ensures
            raw.entries() == table@,
            raw.position() == 0,
            raw.wf(),
    {
        RawIterator { table, pos: 0 }
    }

    /// Whether the raw cursor is at an entry.
    pub fn valid(&self) -> (b: bool)
        requires
            self.wf(),
        ensures
            b == (self.position() < self.entries().len()),
    {
        self.pos < self.table.len()
    }

    /// The raw key of the current entry.
    pub fn key(&self) -> (key: &'a [u8])
        requires
            self.wf(),
            self.position() < self.entries().len(),
        ensures
            key@ == self.entries()[self.position()].0,
    {
        self.table.key(self.pos)
    }

    /// The raw value of the current entry.
    pub fn value(&self) -> (value: &'a [u8])
        requires
            self.wf(),
            self.position() < self.entries().len(),
        ensures
            value@ == self.entries()[self.position()].1,
    {
        self.table.value(self.pos)
    }

    /// Goes to the first entry.
    pub fn seek_to_first(&mut self)
        requires
            old(self).wf(),
        ensures
            final(self).entries() == old(self).entries(),
            final(self).position() == 0,
    {
        self.pos = 0;
    }

    /// Goes to the last entry.
    pub fn seek_to_last(&mut self)
        requires
            old(self).wf(),
        ensures
            final(self).entries() == old(self).entries(),
            final(self).position() == if old(self).entries().len() == 0 {
                0
            } else {
                old(self).entries().len() - 1
            },
    {
        let n = self.table.len();
        self.pos = if n == 0 {
            0
        } else {
            n - 1
        };
    }

    /// Goes to the first entry whose key is `key` or comes after it.
    pub fn seek(&mut self, key: &[u8])
        requires
            old(self).wf(),
        ensures
            final(self).entries() == old(self).entries(),
            final(self).position() == crate::database::keyspace::lower_bound(
                old(self).entries(),
                key@,
            ),
    {
        self.pos = self.table.seek(key);
    }

    /// Goes from an entry to the next one, or to none behind the last.
    pub fn next(&mut self)
        requires
            old(self).wf(),
            old(self).position() < old(self).entries().len(),
        ensures
            final(self).entries() == old(self).entries(),
            final(self).position() == old(self).position() + 1,
    {
        let n = self.table.len();
        assert(self.pos < n);
        self.pos = self.pos + 1;
    }

    /// Goes from an entry to the one before, or to none before the first.
    pub fn prev(&mut self)
        requires
            old(self).wf(),
            old(self).position() < old(self).entries().len(),
        ensures
            final(self).entries() == old(self).entries(),
            final(self).position() == if old(self).position() == 0 {
                old(self).entries().len() as int
            } else {
                old(self).position() - 1
            },
    {
        self.pos = if self.pos == 0 {
            self.table.len()
        } else {
            self.pos - 1
        };
    }
}

/// What every iterator of this module can do.
///
/// An implementor says where its raw cursor, its flags and its bounds are;
/// the traversal itself is written here once, over those.
pub trait LevelDBIterator<'a, K: Serializable + Ord + 'a>: Sized {
    /// The iterator that walks the same entries in the other direction.
    type RevIter;

    /// The state of the traversal.
    spec fn cursor(&self) -> Cursor<K>;

    /// Whether iterators of this type walk backward.
    spec fn backward() -> bool;

    /// The raw cursor.
    fn raw_iterator(&self) -> (raw: &RawIterator<'a>)
        ensures
            raw.entries() == self.cursor().entries,
            raw.position() == self.cursor().pos,
    ;

    /// The raw cursor, to move it.
    fn raw_iterator_mut(&mut self) -> (raw: &mut RawIterator<'a>)
        ensures
            raw.entries() == old(self).cursor().entries,
            raw.position() == old(self).cursor().pos,
            final(self).cursor() == (Cursor {
                entries: final(raw).entries(),
                pos: final(raw).position(),
                ..old(self).cursor()
            }),
    ;

    /// Whether this iterator walks backward.
    fn runs_backward(&self) -> (b: bool)
        ensures
            b == Self::backward(),
    ;

    /// Marks the traversal as started.
    fn start(&mut self)
        ensures
            final(self).cursor() == (Cursor { started: true, ..old(self).cursor() }),
    ;

    /// Whether the first advance has been made.
    fn started(&self) -> (b: bool)
        ensures
            b == self.cursor().started,
    ;

    /// Marks the traversal as stopped.
    fn stop(&mut self)
        ensures
            final(self).cursor() == (Cursor { stopped: true, ..old(self).cursor() }),
    ;

    /// Whether the traversal has met its upper bound.
    fn stopped(&self) -> (b: bool)
        ensures
            b == self.cursor().stopped,
    ;

    /// The state of a traversal in the other direction.
    spec fn rev_cursor(it: &Self::RevIter) -> Cursor<K>;

    /// Turns the traversal round. The raw cursor is handed on, and before
    /// the first advance it is put where the other direction sets out;
    /// flags and bounds stay as they are.
    fn reverse(self) -> (it: Self::RevIter)
        requires
            self.cursor().wf(),
        ensures
            Self::rev_cursor(&it) == self.cursor().turned(Self::backward()),
            Self::rev_cursor(&it).wf(),
    ;

    /// Sets the key at which the traversal starts.
    fn from(self, key: &'a K) -> (it: Self)
        ensures
            it.cursor() == (Cursor { from: Some(*key), ..self.cursor() }),
    ;

    /// Sets the key at which a forward traversal stops.
    fn to(self, key: &'a K) -> (it: Self)
        ensures
            it.cursor() == (Cursor { to: Some(*key), ..self.cursor() }),
    ;

    /// The key at which the traversal starts, if one is set.
    fn from_key(&self) -> (key: Option<&'a K>)
        ensures
            referent(key) == self.cursor().from,
    ;

    /// The key at which a forward traversal stops, if one is set.
    fn to_key(&self) -> (key: Option<&'a K>)
        ensures
            referent(key) == self.cursor().to,
    ;

    /// Moves the raw cursor one step in the direction of the traversal.
    fn advance_raw(&mut self)
        requires
            old(self).cursor().wf(),
            old(self).cursor().positioned(),
        ensures
            final(self).cursor() == old(self).cursor().stepped(Self::backward()),
    ;

    /// Whether the iterator is at an entry and has not stopped.
    fn valid(&self) -> (b: bool)
        requires
            self.cursor().wf(),
        ensures
            b == self.cursor().valid(),
    {
        valid_at(self.raw_iterator().valid(), self.stopped())
    }

    /// Makes one advance and tells whether the iterator is then valid.
    fn advance(&mut self) -> (b: bool)
        requires
            old(self).cursor().wf(),
            lawful_order::<K>(),
        ensures
            final(self).cursor() == old(self).cursor().advanced(Self::backward()),
            final(self).cursor().wf(),
            b == final(self).cursor().valid(),
    {
        proof {
            self.cursor().lemma_moves_keep_wf(Self::backward(), arbitrary());
        }
        let positioned = self.raw_iterator().valid();
        match motion(self.started(), self.stopped(), self.from_key().is_some(), positioned) {
            Motion::Seek => {
                if let Some(begin) = self.from_key() {
                    self.seek(begin);
                }
                self.start();
            },
            Motion::Hold => {
                self.start();
            },
            Motion::Step => {
                self.advance_raw();
                if self.valid() {
                    let key = self.key();
                    if limit_reached(self.runs_backward(), self.to_key(), &key) {
                        self.stop();
                    }
                }
            },
            Motion::Rest => {},
        }
        self.valid()
    }

    /// The decoded key of the current entry.
    fn key(&self) -> (key: K)
        requires
            self.cursor().wf(),
            self.cursor().valid(),
        ensures
            key == self.cursor().key(),
    {
        from_u8(self.raw_iterator().key())
    }

    /// The value of the current entry.
    fn value(&self) -> (value: Vec<u8>)
        requires
            self.cursor().wf(),
            self.cursor().valid(),
        ensures
            value@ == self.cursor().value(),
    {
        slice_to_vec(self.raw_iterator().value())
    }

    /// The current entry.
    fn entry(&self) -> (entry: (K, Vec<u8>))
        requires
            self.cursor().wf(),
            self.cursor().valid(),
        ensures
            entry.0 == self.cursor().key(),
            entry.1@ == self.cursor().value(),
    {
        (self.key(), self.value())
    }

    /// Puts the raw cursor at the first entry.
    fn seek_to_first(&mut self)
        requires
            old(self).cursor().wf(),
        ensures
            final(self).cursor() == old(self).cursor().at_first(),
            final(self).cursor().wf(),
    {
        self.raw_iterator_mut().seek_to_first();
    }

    /// Jumps to the end of the range: to the upper bound where one is set,
    /// else to the last entry.
    fn seek_to_last(&mut self)
        requires
            old(self).cursor().wf(),
        ensures
            final(self).cursor() == old(self).cursor().at_range_end(),
            final(self).cursor().wf(),
    {
        proof {
            self.cursor().lemma_moves_keep_wf(Self::backward(), arbitrary());
        }
        match range_end(self.to_key().is_some()) {
            Jump::ToBound => {
                if let Some(end) = self.to_key() {
                    self.seek(end);
                }
            },
            Jump::ToLast => {
                self.raw_iterator_mut().seek_to_last();
            },
        }
    }

    /// Puts the raw cursor at the first entry whose key is `key` or comes
    /// after it. The flags of the traversal stay as they are.
    fn seek(&mut self, key: &K)
        requires
            old(self).cursor().wf(),
        ensures
            final(self).cursor() == old(self).cursor().sought(*key),
            final(self).cursor().wf(),
    {
        proof {
            self.cursor().lemma_moves_keep_wf(Self::backward(), *key);
        }
        let raw_key = key.as_u8();
        self.raw_iterator_mut().seek(raw_key.as_slice());
    }
}

/// An iterator over the entries of the keyspace, in rising order of their keys.
pub struct Iterator<'a, K: Serializable + 'a> {
    started: bool,
    stopped: bool,
    iter: RawIterator<'a>,
    from: Option<&'a K>,
    to: Option<&'a K>,
}

/// An iterator over the entries of the keyspace, in falling order of their keys.
pub struct RevIterator<'a, K: Serializable + 'a> {
    started: bool,
    stopped: bool,
    iter: RawIterator<'a>,
    from: Option<&'a K>,
    to: Option<&'a K>,
}

/// An iterator over the keys of the keyspace, in rising order.
pub struct KeyIterator<'a, K: Serializable + 'a> {
    inner: Iterator<'a, K>,
}

/// An iterator over the keys of the keyspace, in falling order.
pub struct RevKeyIterator<'a, K: Serializable + 'a> {
    inner: RevIterator<'a, K>,
}

/// An iterator over the values of the keyspace, in rising order of their keys.
pub struct ValueIterator<'a, K: Serializable + 'a> {
    inner: Iterator<'a, K>,
}

/// An iterator over the values of the keyspace, in falling order of their keys.
pub struct RevValueIterator<'a, K: Serializable + 'a> {
    inner: RevIterator<'a, K>,
}

/// The three ways to iterate over a store or a snapshot.
pub trait Iterable<'a, K: Serializable + Ord + 'a> {
    /// The entries that a read with `options` observes.
    spec fn shown(&self, options: ReadOptions<'a, K>) -> Seq<(Seq<u8>, Seq<u8>)>;

    /// The source and the snapshot that `options` name are well formed.
    spec fn readable(&self, options: ReadOptions<'a, K>) -> bool;

    /// An iterator over whole entries.
    fn iter(&'a self, options: ReadOptions<'a, K>) -> (it: Iterator<'a, K>)
        requires
            self.readable(options),
        ensures
            it.state() == Cursor::<K>::fresh(self.shown(options)),
            it.state().wf(),
    ;

    /// An iterator over keys only.
    fn keys_iter(&'a self, options: ReadOptions<'a, K>) -> (it: KeyIterator<'a, K>)
        requires
            self.readable(options),
        ensures
            it.state() == Cursor::<K>::fresh(self.shown(options)),
            it.state().wf(),
    ;

    /// An iterator over values only.
    fn value_iter(&'a self, options: ReadOptions<'a, K>) -> (it: ValueIterator<'a, K>)
        requires
            self.readable(options),
        ensures
            it.state() == Cursor::<K>::fresh(self.shown(options)),
            it.state().wf(),
    ;
}

impl<'a, K: Serializable + Ord + 'a> Iterable<'a, K> for Database<K> {
    open spec fn shown(&self, options: ReadOptions<'a, K>) -> Seq<(Seq<u8>, Seq<u8>)> {
        observed(self@, options)
    }

    open spec fn readable(&self, options: ReadOptions<'a, K>) -> bool {
        self.wf() && options.wf()
    }

    fn iter(&'a self, options: ReadOptions<'a, K>) -> (it: Iterator<'a, K>) {
        Iterator::new(self, options)
    }

    fn keys_iter(&'a self, options: ReadOptions<'a, K>) -> (it: KeyIterator<'a, K>) {
        KeyIterator::new(self, options)
    }

    fn value_iter(&'a self, options: ReadOptions<'a, K>) -> (it: ValueIterator<'a, K>) {
        ValueIterator::new(self, options)
    }
}

impl<'a, K: Serializable + Ord + 'a> Iterator<'a, K> {
    /// The state of the traversal.
    pub closed spec fn state(&self) -> Cursor<K> {
        Cursor {
            entries: self.iter.entries(),
            pos: self.iter.position(),
            started: self.started,
            stopped: self.stopped,
            from: referent(self.from),
            to: referent(self.to),
        }
    }

    /// An iterator on `table`, at its first entry, not started and without bounds.
    pub(crate) fn over(table: &'a Keyspace) -> (it: Iterator<'a, K>)
        requires
            table.wf(),
            keys_encoded::<K>(table@),
        ensures
            it.state() == Cursor::<K>::fresh(table@),
            it.state().wf(),
    {
        Iterator {
            started: false,
            stopped: false,
            iter: RawIterator::new(table),
            from: None,
            to: None,
        }
    }

    /// An iterator on what a read of `database` with `options` observes.
    pub fn new(database: &'a Database<K>, options: ReadOptions<'a, K>) -> (it: Iterator<
        'a,
        K,
    >)
        requires
            database.wf(),
            options.wf(),
        ensures
            it.state() == Cursor::<K>::fresh(observed(database@, options)),
            it.state().wf(),
    {
        Iterator::over(database.table_for(&options))
    }

    /// The entry at the end of the range: the one that the jump of
    /// `seek_to_last` reaches, if the iterator is valid there.
    pub fn last(self) -> (item: Option<(K, Vec<u8>)>)
        requires
            self.state().wf(),
        ensures
            match item {
                Some(entry) => {
                    &&& self.state().at_range_end().valid()
                    &&& entry.0 == self.state().at_range_end().key()
                    &&& entry.1@ == self.state().at_range_end().value()
                },
                None => !self.state().at_range_end().valid(),
            },
    {
        let mut it = self;
        it.seek_to_last();
        if it.valid() {
            Some(it.entry())
        } else {
            None
        }
    }

    /// Advances and yields the entry reached: the first of the remaining
    /// entries, and none when none remains.
    pub fn next(&mut self) -> (item: Option<(K, Vec<u8>)>)
        requires
            old(self).state().wf(),
            lawful_order::<K>(),
        ensures
            final(self).state() == old(self).state().advanced(false),
            final(self).state().wf(),
            match item {
                Some(entry) => {
                    &&& old(self).state().remaining(false).len() > 0
                    &&& entry.0 == old(self).state().remaining(false)[0].0
                    &&& entry.1@ == old(self).state().remaining(false)[0].1
                    &&& final(self).state().remaining(false) == old(self).state().remaining(
                        false,
                    ).drop_first()
                },
                None => {
                    &&& old(self).state().remaining(false).len() == 0
                    &&& final(self).state().remaining(false).len() == 0
                },
            },
    {
        proof {
            self.state().lemma_advance_yields(false);
        }
        if self.advance() {
            Some(self.entry())
        } else {
            None
        }
    }
}

impl<'a, K: Serializable + Ord + 'a> LevelDBIterator<'a, K> for Iterator<'a, K> {
    type RevIter = RevIterator<'a, K>;

    open spec fn cursor(&self) -> Cursor<K> {
        self.state()
    }

    open spec fn backward() -> bool {
        false
    }

    fn raw_iterator(&self) -> (raw: &RawIterator<'a>) {
        &self.iter
    }

    fn raw_iterator_mut(&mut self) -> (raw: &mut RawIterator<'a>) {
        &mut self.iter
    }

    fn runs_backward(&self) -> (b: bool) {
        false
    }

    fn start(&mut self) {
        self.started = true
    }

    fn started(&self) -> (b: bool) {
        self.started
    }

    fn stop(&mut self) {
        self.stopped = true
    }

    fn stopped(&self) -> (b: bool) {
        self.stopped
    }

    fn advance_raw(&mut self) {
        self.iter.next();
    }

    open spec fn rev_cursor(it: &RevIterator<'a, K>) -> Cursor<K> {
        it.state()
    }

    /// Before the first advance the raw cursor goes to the last entry.
    fn reverse(self) -> (it: Self::RevIter) {
        let mut iter = self.iter;
        match turning(self.started, false) {
            Turn::ToFirst => iter.seek_to_first(),
            Turn::ToLast => iter.seek_to_last(),
            Turn::InPlace => {},
        }
        RevIterator {
            started: self.started,
            stopped: self.stopped,
            iter,
            from: self.from,
            to: self.to,
        }
    }

    fn from(self, key: &'a K) -> (it: Self) {
        let mut it = self;
        it.from = Some(key);
        it
    }

    fn to(self, key: &'a K) -> (it: Self) {
        let mut it = self;
        it.to = Some(key);
        it
    }

    fn from_key(&self) -> (key: Option<&'a K>) {
        self.from
    }

    fn to_key(&self) -> (key: Option<&'a K>) {
        self.to
    }
}

impl<'a, K: Serializable + Ord + 'a> RevIterator<'a, K> {
    /// The state of the traversal.
    pub closed spec fn state(&self) -> Cursor<K> {
        Cursor {
            entries: self.iter.entries(),
            pos: self.iter.position(),
            started: self.started,
            stopped: self.stopped,
            from: referent(self.from),
            to: referent(self.to),
        }
    }

    /// Advances and yields the entry reached: the first of the remaining
    /// entries, and none when none remains.
    pub fn next(&mut self) -> (item: Option<(K, Vec<u8>)>)
        requires
            old(self).state().wf(),
            lawful_order::<K>(),
        ensures
            final(self).state() == old(self).state().advanced(true),
            final(self).state().wf(),
            match item {
                Some(entry) => {
                    &&& old(self).state().remaining(true).len() > 0
                    &&& entry.0 == old(self).state().remaining(true)[0].0
                    &&& entry.1@ == old(self).state().remaining(true)[0].1
                    &&& final(self).state().remaining(true) == old(self).state().remaining(
                        true,
                    ).drop_first()
                },
                None => {
                    &&& old(self).state().remaining(true).len() == 0
                    &&& final(self).state().remaining(true).len() == 0
                },
            },
    {
        proof {
            self.state().lemma_advance_yields(true);
        }
        if self.advance() {
            Some(self.entry())
        } else {
            None
        }
    }
}

impl<'a, K: Serializable + Ord + 'a> LevelDBIterator<'a, K> for RevIterator<'a, K> {
    type RevIter = Iterator<'a, K>;

    open spec fn cursor(&self) -> Cursor<K> {
        self.state()
    }

    open spec fn backward() -> bool {
        true
    }

    fn raw_iterator(&self) -> (raw: &RawIterator<'a>) {
        &self.iter
    }

    fn raw_iterator_mut(&mut self) -> (raw: &mut RawIterator<'a>) {
        &mut self.iter
    }

    fn runs_backward(&self) -> (b: bool) {
        true
    }

    fn start(&mut self) {
        self.started = true
    }

    fn started(&self) -> (b: bool) {
        self.started
    }

    fn stop(&mut self) {
        self.stopped = true
    }

    fn stopped(&self) -> (b: bool) {
        self.stopped
    }

    fn advance_raw(&mut self) {
        self.iter.prev();
    }

    open spec fn rev_cursor(it: &Iterator<'a, K>) -> Cursor<K> {
        it.state()
    }

    /// Before the first advance the raw cursor goes to the first entry.
    fn reverse(self) -> (it: Self::RevIter) {
        let mut iter = self.iter;
        match turning(self.started, true) {
            Turn::ToFirst => iter.seek_to_first(),
            Turn::ToLast => iter.seek_to_last(),
            Turn::InPlace => {},
        }
        Iterator {
            started: self.started,
            stopped: self.stopped,
            iter,
            from: self.from,
            to: self.to,
        }
    }

    fn from(self, key: &'a K) -> (it: Self) {
        let mut it = self;
        it.from = Some(key);
        it
    }

    fn to(self, key: &'a K) -> (it: Self) {
        let mut it = self;
        it.to = Some(key);
        it
    }

    fn from_key(&self) -> (key: Option<&'a K>) {
        self.from
    }

    fn to_key(&self) -> (key: Option<&'a K>) {
        self.to
    }
}

impl<'a, K: Serializable + Ord + 'a> KeyIterator<'a, K> {
    /// The state of the traversal.
    pub closed spec fn state(&self) -> Cursor<K> {
        self.inner.state()
    }

    /// An iterator on `table`, at its first entry, not started and without bounds.
    pub(crate) fn over(table: &'a Keyspace) -> (it: KeyIterator<'a, K>)
        requires
            table.wf(),
            keys_encoded::<K>(table@),
        ensures
            it.state() == Cursor::<K>::fresh(table@),
            it.state().wf(),
    {
        KeyIterator { inner: Iterator::over(table) }
    }

    /// An iterator on what a read of `database` with `options` observes.
    pub fn new(database: &'a Database<K>, options: ReadOptions<'a, K>) -> (it: KeyIterator<
        'a,
        K,
    >)
        requires
            database.wf(),
            options.wf(),
        ensures
            it.state() == Cursor::<K>::fresh(observed(database@, options)),
            it.state().wf(),
    {
        KeyIterator { inner: Iterator::new(database, options) }
    }

    /// The key at the end of the range: the one that the jump of
    /// `seek_to_last` reaches, if the iterator is valid there.
    pub fn last(self) -> (item: Option<K>)
        requires
            self.state().wf(),
        ensures
            match item {
                Some(item) => {
                    &&& self.state().at_range_end().valid()
                    &&& item == self.state().at_range_end().key()
                },
                None => !self.state().at_range_end().valid(),
            },
    {
        let mut it = self;
        it.seek_to_last();
        if it.valid() {
            Some(it.key())
        } else {
            None
        }
    }

    /// Advances and yields the key reached: the first of the remaining
    /// keys, and none when none remains.
    pub fn next(&mut self) -> (item: Option<K>)
        requires
            old(self).state().wf(),
            lawful_order::<K>(),
        ensures
            final(self).state() == old(self).state().advanced(false),
            final(self).state().wf(),
            match item {
                Some(item) => {
                    &&& old(self).state().remaining_keys(false).len() > 0
                    &&& item == old(self).state().remaining_keys(false)[0]
                    &&& final(self).state().remaining_keys(false) == old(
                        self,
                    ).state().remaining_keys(false).drop_first()
                },
                None => {
                    &&& old(self).state().remaining_keys(false).len() == 0
                    &&& final(self).state().remaining_keys(false).len() == 0
                },
            },
    {
        proof {
            self.state().lemma_advance_yields(false);
        }
        if self.advance() {
            assert(self.state().remaining_keys(false) =~= old(self).state().remaining_keys(
                false,
            ).drop_first());
            Some(self.key())
        } else {
            None
        }
    }
}

impl<'a, K: Serializable + Ord + 'a> LevelDBIterator<'a, K> for KeyIterator<'a, K> {
    type RevIter = RevKeyIterator<'a, K>;

    open spec fn cursor(&self) -> Cursor<K> {
        self.state()
    }

    open spec fn backward() -> bool {
        false
    }

    fn raw_iterator(&self) -> (raw: &RawIterator<'a>) {
        &self.inner.iter
    }

    fn raw_iterator_mut(&mut self) -> (raw: &mut RawIterator<'a>) {
        &mut self.inner.iter
    }

    fn runs_backward(&self) -> (b: bool) {
        false
    }

    fn start(&mut self) {
        self.inner.started = true
    }

    fn started(&self) -> (b: bool) {
        self.inner.started
    }

    fn stop(&mut self) {
        self.inner.stopped = true
    }

    fn stopped(&self) -> (b: bool) {
        self.inner.stopped
    }

    fn advance_raw(&mut self) {
        self.inner.advance_raw();
    }

    open spec fn rev_cursor(it: &RevKeyIterator<'a, K>) -> Cursor<K> {
        it.state()
    }

    /// Turns the inner iterator round and keeps yielding keys.
    fn reverse(self) -> (it: Self::RevIter) {
        RevKeyIterator { inner: self.inner.reverse() }
    }

    fn from(self, key: &'a K) -> (it: Self) {
        let mut it = self;
        it.inner.from = Some(key);
        it
    }

    fn to(self, key: &'a K) -> (it: Self) {
        let mut it = self;
        it.inner.to = Some(key);
        it
    }

    fn from_key(&self) -> (key: Option<&'a K>) {
        self.inner.from
    }

    fn to_key(&self) -> (key: Option<&'a K>) {
        self.inner.to
    }
}

impl<'a, K: Serializable + Ord + 'a> RevKeyIterator<'a, K> {
    /// The state of the traversal.
    pub closed spec fn state(&self) -> Cursor<K> {
        self.inner.state()
    }

    /// Advances and yields the key reached: the first of the remaining
    /// keys, and none when none remains.
    pub fn next(&mut self) -> (item: Option<K>)
        requires
            old(self).state().wf(),
            lawful_order::<K>(),
        ensures
            final(self).state() == old(self).state().advanced(true),
            final(self).state().wf(),
            match item {
                Some(item) => {
                    &&& old(self).state().remaining_keys(true).len() > 0
                    &&& item == old(self).state().remaining_keys(true)[0]
                    &&& final(self).state().remaining_keys(true) == old(
                        self,
                    ).state().remaining_keys(true).drop_first()
                },
                None => {
                    &&& old(self).state().remaining_keys(true).len() == 0
                    &&& final(self).state().remaining_keys(true).len() == 0
                },
            },
    {
        proof {
            self.state().lemma_advance_yields(true);
        }
        if self.advance() {
            assert(self.state().remaining_keys(true) =~= old(self).state().remaining_keys(
                true,
            ).drop_first());
            Some(self.key())
        } else {
            None
        }
    }
}

impl<'a, K: Serializable + Ord + 'a> LevelDBIterator<'a, K> for RevKeyIterator<'a, K> {
    type RevIter = KeyIterator<'a, K>;

    open spec fn cursor(&self) -> Cursor<K> {
        self.state()
    }

    open spec fn backward() -> bool {
        true
    }

    fn raw_iterator(&self) -> (raw: &RawIterator<'a>) {
        &self.inner.iter
    }

    fn raw_iterator_mut(&mut self) -> (raw: &mut RawIterator<'a>) {
        &mut self.inner.iter
    }

    fn runs_backward(&self) -> (b: bool) {
        true
    }

    fn start(&mut self) {
        self.inner.started = true
    }

    fn started(&self) -> (b: bool) {
        self.inner.started
    }

    fn stop(&mut self) {
        self.inner.stopped = true
    }

    fn stopped(&self) -> (b: bool) {
        self.inner.stopped
    }

    fn advance_raw(&mut self) {
        self.inner.advance_raw();
    }

    open spec fn rev_cursor(it: &KeyIterator<'a, K>) -> Cursor<K> {
        it.state()
    }

    /// Turns the inner iterator round and keeps yielding keys.
    fn reverse(self) -> (it: Self::RevIter) {
        KeyIterator { inner: self.inner.reverse() }
    }

    fn from(self, key: &'a K) -> (it: Self) {
        let mut it = self;
        it.inner.from = Some(key);
        it
    }

    fn to(self, key: &'a K) -> (it: Self) {
        let mut it = self;
        it.inner.to = Some(key);
        it
    }

    fn from_key(&self) -> (key: Option<&'a K>) {
        self.inner.from
    }

    fn to_key(&self) -> (key: Option<&'a K>) {
        self.inner.to
    }
}

impl<'a, K: Serializable + Ord + 'a> ValueIterator<'a, K> {
    /// The state of the traversal.
    pub closed spec fn state(&self) -> Cursor<K> {
        self.inner.state()
    }

    /// An iterator on `table`, at its first entry, not started and without bounds.
    pub(crate) fn over(table: &'a Keyspace) -> (it: ValueIterator<'a, K>)
        requires
            table.wf(),
            keys_encoded::<K>(table@),
        ensures
            it.state() == Cursor::<K>::fresh(table@),
            it.state().wf(),
    {
        ValueIterator { inner: Iterator::over(table) }
    }

    /// An iterator on what a read of `database` with `options` observes.
    pub fn new(database: &'a Database<K>, options: ReadOptions<'a, K>) -> (it: ValueIterator<
        'a,
        K,
    >)
        requires
            database.wf(),
            options.wf(),
        ensures
            it.state() == Cursor::<K>::fresh(observed(database@, options)),
            it.state().wf(),
    {
        ValueIterator { inner: Iterator::new(database, options) }
    }

    /// The value at the end of the range: the one that the jump of
    /// `seek_to_last` reaches, if the iterator is valid there.
    pub fn last(self) -> (item: Option<Vec<u8>>)
        requires
            self.state().wf(),
        ensures
            match item {
                Some(item) => {
                    &&& self.state().at_range_end().valid()
                    &&& item@ == self.state().at_range_end().value()
                },
                None => !self.state().at_range_end().valid(),
            },
    {
        let mut it = self;
        it.seek_to_last();
        if it.valid() {
            Some(it.value())
        } else {
            None
        }
    }

    /// Advances and yields the value reached: the first of the remaining
    /// values, and none when none remains.
    pub fn next(&mut self) -> (item: Option<Vec<u8>>)
        requires
            old(self).state().wf(),
            lawful_order::<K>(),
        ensures
            final(self).state() == old(self).state().advanced(false),
            final(self).state().wf(),
            match item {
                Some(item) => {
                    &&& old(self).state().remaining_values(false).len() > 0
                    &&& item@ == old(self).state().remaining_values(false)[0]
                    &&& final(self).state().remaining_values(false) == old(
                        self,
                    ).state().remaining_values(false).drop_first()
                },
                None => {
                    &&& old(self).state().remaining_values(false).len() == 0
                    &&& final(self).state().remaining_values(false).len() == 0
                },
            },
    {
        proof {
            self.state().lemma_advance_yields(false);
        }
        if self.advance() {
            assert(self.state().remaining_values(false) =~= old(self).state().remaining_values(
                false,
            ).drop_first());
            Some(self.value())
        } else {
            None
        }
    }
}

impl<'a, K: Serializable + Ord + 'a> LevelDBIterator<'a, K> for ValueIterator<'a, K> {
    type RevIter = RevValueIterator<'a, K>;

    open spec fn cursor(&self) -> Cursor<K> {
        self.state()
    }

    open spec fn backward() -> bool {
        false
    }

    fn raw_iterator(&self) -> (raw: &RawIterator<'a>) {
        &self.inner.iter
    }

    fn raw_iterator_mut(&mut self) -> (raw: &mut RawIterator<'a>) {
        &mut self.inner.iter
    }

    fn runs_backward(&self) -> (b: bool) {
        false
    }

    fn start(&mut self) {
        self.inner.started = true
    }

    fn started(&self) -> (b: bool) {
        self.inner.started
    }

    fn stop(&mut self) {
        self.inner.stopped = true
    }

    fn stopped(&self) -> (b: bool) {
        self.inner.stopped
    }

    fn advance_raw(&mut self) {
        self.inner.advance_raw();
    }

    open spec fn rev_cursor(it: &RevValueIterator<'a, K>) -> Cursor<K> {
        it.state()
    }

    /// Turns the inner iterator round and keeps yielding values.
    fn reverse(self) -> (it: Self::RevIter) {
        RevValueIterator { inner: self.inner.reverse() }
    }

    fn from(self, key: &'a K) -> (it: Self) {
        let mut it = self;
        it.inner.from = Some(key);
        it
    }

    fn to(self, key: &'a K) -> (it: Self) {
        let mut it = self;
        it.inner.to = Some(key);
        it
    }

    fn from_key(&self) -> (key: Option<&'a K>) {
        self.inner.from
    }

    fn to_key(&self) -> (key: Option<&'a K>) {
        self.inner.to
    }
}

impl<'a, K: Serializable + Ord + 'a> RevValueIterator<'a, K> {
    /// The state of the traversal.
    pub closed spec fn state(&self) -> Cursor<K> {
        self.inner.state()
    }

    /// Advances and yields the value reached: the first of the remaining
    /// values, and none when none remains.
    pub fn next(&mut self) -> (item: Option<Vec<u8>>)
        requires
            old(self).state().wf(),
            lawful_order::<K>(),
        ensures
            final(self).state() == old(self).state().advanced(true),
            final(self).state().wf(),
            match item {
                Some(item) => {
                    &&& old(self).state().remaining_values(true).len() > 0
                    &&& item@ == old(self).state().remaining_values(true)[0]
                    &&& final(self).state().remaining_values(true) == old(
                        self,
                    ).state().remaining_values(true).drop_first()
                },
                None => {
                    &&& old(self).state().remaining_values(true).len() == 0
                    &&& final(self).state().remaining_values(true).len() == 0
                },
            },
    {
        proof {
            self.state().lemma_advance_yields(true);
        }
        if self.advance() {
            assert(self.state().remaining_values(true) =~= old(self).state().remaining_values(
                true,
            ).drop_first());
            Some(self.value())
        } else {
            None
        }
    }
}

impl<'a, K: Serializable + Ord + 'a> LevelDBIterator<'a, K> for RevValueIterator<'a, K> {
    type RevIter = ValueIterator<'a, K>;

    open spec fn cursor(&self) -> Cursor<K> {
        self.state()
    }

    open spec fn backward() -> bool {
        true
    }

    fn raw_iterator(&self) -> (raw: &RawIterator<'a>) {
        &self.inner.iter
    }

    fn raw_iterator_mut(&mut self) -> (raw: &mut RawIterator<'a>) {
        &mut self.inner.iter
    }

    fn runs_backward(&self) -> (b: bool) {
        true
    }

    fn start(&mut self) {
        self.inner.started = true
    }

    fn started(&self) -> (b: bool) {
        self.inner.started
    }

    fn stop(&mut self) {
        self.inner.stopped = true
    }

    fn stopped(&self) -> (b: bool) {
        self.inner.stopped
    }

    fn advance_raw(&mut self) {
        self.inner.advance_raw();
    }

    open spec fn rev_cursor(it: &ValueIterator<'a, K>) -> Cursor<K> {
        it.state()
    }

    /// Turns the inner iterator round and keeps yielding values.
    fn reverse(self) -> (it: Self::RevIter) {
        ValueIterator { inner: self.inner.reverse() }
    }

    fn from(self, key: &'a K) -> (it: Self) {
        let mut it = self;
        it.inner.from = Some(key);
        it
    }

    fn to(self, key: &'a K) -> (it: Self) {
        let mut it = self;
        it.inner.to = Some(key);
        it
    }

    fn from_key(&self) -> (key: Option<&'a K>) {
        self.inner.from
    }

    fn to_key(&self) -> (key: Option<&'a K>) {
        self.inner.to
    }
}

} // verus!
