//! What a cursor is and how it moves.
//!
//! A [`Cursor`] is the state of one traversal: the entries it walks, the
//! place of the raw cursor among them, whether the traversal has started,
//! whether it has stopped, and its two bounds. Every operation of the
//! iterators is stated as a function from cursor to cursor, and
//! [`Cursor::remaining`] says which elements a traversal is still going to
//! yield. The laws at the end of this file relate these functions.
use vstd::prelude::*;
use vstd::std_specs::cmp::{PartialOrdIs, PartialOrdSpec};
use crate::database::keyspace::{
    lemma_lower_bound_parts, lemma_lower_bound_range, lower_bound, ordered,
};
use crate::database::serializable::{
    lemma_below_asymmetric, lemma_below_transitive, Serializable,
};

verus! {

/// The comparison operators of `K` compute the order of its codec: `a <= b`
/// tells that `b` does not come before `a`.
pub open spec fn lawful_order<K: Serializable + Ord>() -> bool {
    &&& K::obeys_partial_cmp_spec()
    &&& forall|a: K, b: K| #![trigger a.partial_cmp_spec(&b)] a.is_le(&b) <==> !b.below(&a)
}

/// Every raw key of `s` is the encoding of a `K`: it decodes, and to the
/// key that is written as these bytes.
pub open spec fn keys_encoded<K: Serializable>(s: Seq<(Seq<u8>, Seq<u8>)>) -> bool {
    forall|i: int|
        0 <= i < s.len() ==> K::decodable(#[trigger] s[i].0) && K::decoded(s[i].0).encoded()
            == s[i].0
}

/// What one advance asks of the raw cursor.
#[derive(Clone, Copy, Debug, PartialEq, Eq, Structural)]
pub enum Motion {
    /// Seek to the lower bound; the traversal starts there.
    Seek,
    /// Stay where the raw cursor is; the traversal starts there.
    Hold,
    /// Move one step in the direction of the traversal.
    Step,
    /// Nothing: the traversal has run out or has stopped.
    Rest,
}

/// The motion that an advance makes, given the two flags of the traversal,
/// whether a lower bound is set and whether the raw cursor is at an entry.
pub open spec fn motion_of(
    started: bool,
    stopped: bool,
    bounded: bool,
    positioned: bool,
) -> Motion {
    if !started {
        if bounded {
            Motion::Seek
        } else {
            Motion::Hold
        }
    } else if !stopped && positioned {
        Motion::Step
    } else {
        Motion::Rest
    }
}

/// Decides what one advance asks of the raw cursor.
pub fn motion(started: bool, stopped: bool, bounded: bool, positioned: bool) -> (m: Motion)
    ensures
        m == motion_of(started, stopped, bounded, positioned),
{
    if !started {
        if bounded {
            Motion::Seek
        } else {
            Motion::Hold
        }
    } else if !stopped && positioned {
        Motion::Step
    } else {
        Motion::Rest
    }
}

/// Where turning a traversal round puts the raw cursor.
#[derive(Clone, Copy, Debug, PartialEq, Eq, Structural)]
pub enum Turn {
    /// At the first entry, from which a forward traversal sets out.
    ToFirst,
    /// At the last entry, from which a backward traversal sets out.
    ToLast,
    /// Where it is: the traversal has started and goes on from its place.
    InPlace,
}

/// Where a traversal that walks in the direction `backward` puts the raw
/// cursor when it is turned round.
pub open spec fn turn_of(started: bool, backward: bool) -> Turn {
    if started {
        Turn::InPlace
    } else if backward {
        Turn::ToFirst
    } else {
        Turn::ToLast
    }
}

/// Decides where turning a traversal round puts the raw cursor.
pub fn turning(started: bool, backward: bool) -> (t: Turn)
    ensures
        t == turn_of(started, backward),
{
    if started {
        Turn::InPlace
    } else if backward {
        Turn::ToFirst
    } else {
        Turn::ToLast
    }
}

/// Where the jump to the end of the range goes.
#[derive(Clone, Copy, Debug, PartialEq, Eq, Structural)]
pub enum Jump {
    /// To the upper bound, as a seek for it does.
    ToBound,
    /// To the last entry of the keyspace.
    ToLast,
}

/// Where the jump to the end of the range goes, given whether an upper bound is set.
pub open spec fn jump_of(bounded: bool) -> Jump {
    if bounded {
        Jump::ToBound
    } else {
        Jump::ToLast
    }
}

/// Decides where the jump to the end of the range goes.
pub fn range_end(bounded: bool) -> (j: Jump)
    ensures
        j == jump_of(bounded),
{
    if bounded {
        Jump::ToBound
    } else {
        Jump::ToLast
    }
}

/// Decides whether a cursor is valid: its raw cursor is at an entry and the
/// traversal has not stopped.
pub fn valid_at(positioned: bool, stopped: bool) -> (valid: bool)
    ensures
        valid == (positioned && !stopped),
{
    positioned && !stopped
}

/// Decides whether a step onto `key` ends the traversal: a forward
/// traversal ends on the first key that is not below the upper bound; a
/// backward traversal has no such end.
pub fn limit_reached<K: Serializable + Ord>(
    backward: bool,
    to: Option<&K>,
    key: &K,
) -> (reached: bool)
    requires
        lawful_order::<K>(),
    ensures
        reached == match to {
            Some(end) => !backward && !key.below(end),
            None => false,
        },
{
    match to {
        Some(end) => !backward && end <= key,
        None => false,
    }
}

/// The state of one traversal.
pub struct Cursor<K> {
    /// The entries that the traversal walks, fixed when it was made.
    pub entries: Seq<(Seq<u8>, Seq<u8>)>,
    /// The place of the raw cursor; `entries.len()` when it is at no entry.
    pub pos: int,
    /// The first advance has been made.
    pub started: bool,
    /// The upper bound has been met.
    pub stopped: bool,
    /// Where the first advance seeks to.
    pub from: Option<K>,
    /// Where a forward traversal stops.
    pub to: Option<K>,
}

impl<K: Serializable + Ord> Cursor<K> {
    /// The entries are ordered, their raw keys are encoded keys, and the
    /// raw cursor is at an entry or at none.
    pub open spec fn wf(self) -> bool {
        &&& ordered(self.entries)
        &&& keys_encoded::<K>(self.entries)
        &&& 0 <= self.pos <= self.entries.len()
    }

    /// A cursor made on `entries`: at the first entry, not started, without bounds.
    pub open spec fn fresh(entries: Seq<(Seq<u8>, Seq<u8>)>) -> Cursor<K> {
        Cursor { entries, pos: 0, started: false, stopped: false, from: None, to: None }
    }

    /// The raw cursor is at an entry.
    pub open spec fn positioned(self) -> bool {
        0 <= self.pos < self.entries.len()
    }

    /// The cursor is at an entry and has not stopped.
    pub open spec fn valid(self) -> bool {
        self.positioned() && !self.stopped
    }

    /// The entry at place `i`, its key decoded.
    pub open spec fn item_at(self, i: int) -> (K, Seq<u8>) {
        (K::decoded(self.entries[i].0), self.entries[i].1)
    }

    /// The decoded key of the current entry.
    pub open spec fn key(self) -> K {
        self.item_at(self.pos).0
    }

    /// The value of the current entry.
    pub open spec fn value(self) -> Seq<u8> {
        self.item_at(self.pos).1
    }

    /// The current entry.
    pub open spec fn entry(self) -> (K, Seq<u8>) {
        self.item_at(self.pos)
    }

    /// The same cursor with the raw cursor at `pos`.
    pub open spec fn moved_to(self, pos: int) -> Cursor<K> {
        Cursor { pos, ..self }
    }

    /// The raw cursor at the first entry.
    pub open spec fn at_first(self) -> Cursor<K> {
        self.moved_to(0)
    }

    /// The raw cursor at the last entry of the keyspace.
    pub open spec fn at_last(self) -> Cursor<K> {
        self.moved_to(
            if self.entries.len() == 0 {
                0
            } else {
                self.entries.len() - 1
            },
        )
    }

    /// The raw cursor at the first entry whose key is `key` or comes after it.
    pub open spec fn sought(self, key: K) -> Cursor<K> {
        self.moved_to(lower_bound(self.entries, key.encoded()))
    }

    /// The jump to the end of the range: to the upper bound where one is
    /// set, else to the last entry of the keyspace.
    pub open spec fn at_range_end(self) -> Cursor<K> {
        match jump_of(self.to is Some) {
            Jump::ToBound => self.sought(self.to->0),
            Jump::ToLast => self.at_last(),
        }
    }

    /// One step of the raw cursor from an entry: to the next entry, or
    /// backward to the one before. Past either end it is at no entry.
    pub open spec fn stepped(self, backward: bool) -> Cursor<K> {
        if !backward {
            self.moved_to(self.pos + 1)
        } else if self.pos == 0 {
            self.moved_to(self.entries.len() as int)
        } else {
            self.moved_to(self.pos - 1)
        }
    }

    /// The upper bound is set and the key at place `i` is not below it.
    pub open spec fn reaches(self, i: int) -> bool {
        match self.to {
            Some(end) => !self.item_at(i).0.below(&end),
            None => false,
        }
    }

    /// Where the first advance puts the raw cursor: at the lower bound where
    /// one is set, else where the cursor already is.
    pub open spec fn landing(self) -> int {
        match self.from {
            Some(begin) => lower_bound(self.entries, begin.encoded()),
            None => self.pos,
        }
    }

    /// The cursor after one advance.
    ///
    /// The first advance seeks to the lower bound, if there is one, and looks
    /// at no bound after that. Each later advance, while the cursor is valid,
    /// moves one step; a forward step onto a key that has reached the upper
    /// bound stops the traversal. A cursor that has run out or stopped stays
    /// as it is. A backward traversal never looks at the upper bound.
    pub open spec fn advanced(self, backward: bool) -> Cursor<K> {
        match motion_of(self.started, self.stopped, self.from is Some, self.positioned()) {
            Motion::Seek | Motion::Hold => Cursor {
                started: true,
                ..self.moved_to(self.landing())
            },
            Motion::Step => {
                let next = self.stepped(backward);
                if !backward && next.positioned() && next.reaches(next.pos) {
                    Cursor { stopped: true, ..next }
                } else {
                    next
                }
            },
            Motion::Rest => self,
        }
    }

    /// The cursor turned round, from the direction `backward` to the other.
    /// Before the first advance the raw cursor goes to the end from which the
    /// new direction sets out; flags and bounds stay.
    pub open spec fn turned(self, backward: bool) -> Cursor<K> {
        match turn_of(self.started, backward) {
            Turn::InPlace => self,
            Turn::ToFirst => self.at_first(),
            Turn::ToLast => self.at_last(),
        }
    }

    /// Where a forward run that enters place `i` ends: at the first place
    /// from `i` on whose key has reached the upper bound, or behind the last entry.
    pub open spec fn cut(self, i: int) -> int
        decreases self.entries.len() - i,
    {
        if 0 <= i < self.entries.len() && !self.reaches(i) {
            self.cut(i + 1)
        } else {
            i
        }
    }

    /// The entries at the places `a`, `a + 1`, up to but without `b`.
    pub open spec fn run_up(self, a: int, b: int) -> Seq<(K, Seq<u8>)> {
        Seq::new((b - a) as nat, |k: int| self.item_at(a + k))
    }

    /// The entries at the places `a`, `a - 1`, down to the first entry.
    pub open spec fn run_down(self, a: int) -> Seq<(K, Seq<u8>)> {
        Seq::new((a + 1) as nat, |k: int| self.item_at(a - k))
    }

    /// The elements that the traversal has yet to yield, in the order in
    /// which it yields them.
    pub open spec fn remaining(self, backward: bool) -> Seq<(K, Seq<u8>)> {
        let n = self.entries.len();
        if self.stopped {
            Seq::empty()
        } else if !self.started {
            let first = self.landing();
            if first >= n {
                Seq::empty()
            } else if backward {
                self.run_down(first)
            } else {
                seq![self.item_at(first)] + self.run_up(first + 1, self.cut(first + 1))
            }
        } else if self.pos >= n {
            Seq::empty()
        } else if backward {
            self.run_down(self.pos - 1)
        } else {
            self.run_up(self.pos + 1, self.cut(self.pos + 1))
        }
    }

    /// The keys that a key-only traversal has yet to yield.
    pub open spec fn remaining_keys(self, backward: bool) -> Seq<K> {
        Seq::new(self.remaining(backward).len(), |i: int| self.remaining(backward)[i].0)
    }

    /// The values that a value-only traversal has yet to yield.
    pub open spec fn remaining_values(self, backward: bool) -> Seq<Seq<u8>> {
        Seq::new(self.remaining(backward).len(), |i: int| self.remaining(backward)[i].1)
    }

    /// The cursor after `n` advances.
    pub open spec fn advanced_by(self, backward: bool, n: nat) -> Cursor<K>
        decreases n,
    {
        if n == 0 {
            self
        } else {
            self.advanced(backward).advanced_by(backward, (n - 1) as nat)
        }
    }

    /// A forward run ends at or behind the place it enters, no key before
    /// its end has reached the upper bound, and the key at its end has.
    pub proof fn lemma_cut(self, i: int)
        requires
            0 <= i <= self.entries.len(),
        ensures
            i <= self.cut(i) <= self.entries.len(),
            forall|j: int| i <= j < self.cut(i) ==> !self.reaches(j),
            self.cut(i) < self.entries.len() ==> self.reaches(self.cut(i)),
        decreases self.entries.len() - i,
    {
        if i < self.entries.len() && !self.reaches(i) {
            self.lemma_cut(i + 1);
        }
    }

    /// Every move keeps a cursor well formed.
    pub proof fn lemma_moves_keep_wf(self, backward: bool, key: K)
        requires
            self.wf(),
        ensures
            self.at_first().wf(),
            self.at_last().wf(),
            self.sought(key).wf(),
            self.at_range_end().wf(),
            self.turned(backward).wf(),
            self.advanced(backward).wf(),
            self.positioned() ==> self.stepped(backward).wf(),
    {
        lemma_lower_bound_range(self.entries, key.encoded());
        if let Some(end) = self.to {
            lemma_lower_bound_range(self.entries, end.encoded());
        }
        if let Some(begin) = self.from {
            lemma_lower_bound_range(self.entries, begin.encoded());
        }
    }

    /// One advance yields the first of the remaining elements and leaves the
    /// rest; it yields nothing exactly when nothing remains, and then nothing
    /// remains afterwards either.
    pub proof fn lemma_advance_yields(self, backward: bool)
        requires
            self.wf(),
        ensures
            self.advanced(backward).wf(),
            self.advanced(backward).started,
            self.advanced(backward).valid() <==> self.remaining(backward).len() > 0,
            self.advanced(backward).valid() ==> {
                &&& self.advanced(backward).entry() == self.remaining(backward)[0]
                &&& self.advanced(backward).remaining(backward) == self.remaining(
                    backward,
                ).drop_first()
            },
            !self.advanced(backward).valid() ==> self.advanced(backward).remaining(backward).len()
                == 0,
    {
        self.lemma_moves_keep_wf(backward, arbitrary());
        let next = self.advanced(backward);
        let n = self.entries.len() as int;
        if next.valid() {
            if !backward {
                self.lemma_cut(next.pos + 1);
                if self.started {
                    self.lemma_cut(next.pos);
                    assert(self.cut(next.pos) == self.cut(next.pos + 1));
                }
                assert(next.cut(next.pos + 1) == self.cut(next.pos + 1)) by {
                    self.lemma_cut_same(next, next.pos + 1);
                }
                assert(next.remaining(backward) =~= self.remaining(backward).drop_first());
            } else {
                assert(next.remaining(backward) =~= self.remaining(backward).drop_first());
            }
        } else if self.started && self.valid() && !backward {
            self.lemma_cut(self.pos + 1);
        }
    }

    /// Where a run ends depends on the entries and the upper bound alone.
    pub proof fn lemma_cut_same(self, other: Cursor<K>, i: int)
        requires
            self.entries == other.entries,
            self.to == other.to,
        ensures
            self.cut(i) == other.cut(i),
        decreases self.entries.len() - i,
    {
        if 0 <= i < self.entries.len() && !self.reaches(i) {
            self.lemma_cut_same(other, i + 1);
        }
    }

    /// Exhaustion is terminal: once an advance has left the cursor without a
    /// valid entry, no number of further advances makes it valid again.
    pub proof fn lemma_exhaustion_is_terminal(self, backward: bool, n: nat)
        requires
            self.wf(),
            self.started,
            !self.valid(),
        ensures
            !self.advanced_by(backward, n).valid(),
            self.advanced_by(backward, n).remaining(backward).len() == 0,
        decreases n,
    {
        if n > 0 {
            self.advanced(backward).lemma_exhaustion_is_terminal(backward, (n - 1) as nat);
        }
    }

    /// Forward and backward traversals mirror each other: a fresh cursor
    /// without a lower bound, whose upper bound no key but the first
    /// reaches, yields when turned round before its first advance exactly
    /// the elements of the forward traversal in the opposite order.
    pub proof fn lemma_reversal_mirrors(self)
        requires
            self.wf(),
            !self.started,
            !self.stopped,
            self.pos == 0,
            self.from is None,
            forall|j: int| 1 <= j < self.entries.len() ==> !self.reaches(j),
        ensures
            self.turned(false).remaining(true) == self.remaining(false).reverse(),
    {
        let n = self.entries.len() as int;
        if n > 0 {
            self.lemma_cut_runs_out(1);
            let forward = self.remaining(false);
            let mirrored = self.turned(false).remaining(true);
            assert(forward.len() == n);
            assert(mirrored.len() == n);
            assert forall|i: int| 0 <= i < n implies mirrored[i] == forward.reverse()[i] by {
                assert(mirrored[i] == self.item_at(n - 1 - i));
                assert(forward[n - 1 - i] == self.item_at(n - 1 - i));
            }
            assert(mirrored =~= forward.reverse());
        } else {
            assert(self.turned(false).remaining(true) =~= self.remaining(false).reverse());
        }
    }

    /// A run that meets no key at the upper bound goes on to the end.
    pub proof fn lemma_cut_runs_out(self, i: int)
        requires
            0 <= i <= self.entries.len(),
            forall|j: int| i <= j < self.entries.len() ==> !self.reaches(j),
        ensures
            self.cut(i) == self.entries.len(),
        decreases self.entries.len() - i,
    {
        if i < self.entries.len() {
            self.lemma_cut_runs_out(i + 1);
        }
    }

    /// The decoded keys rise strictly from entry to entry.
    pub proof fn lemma_keys_rise(self, i: int, j: int)
        requires
            self.wf(),
            0 <= i < j < self.entries.len(),
        ensures
            self.item_at(i).0.below(&self.item_at(j).0),
    {
        self.item_at(i).0.order_preserved(&self.item_at(j).0);
    }

    /// The first entry holds the least key and the last entry the greatest.
    pub proof fn lemma_ends_hold_extremes(self)
        requires
            self.wf(),
        ensures
            forall|j: int|
                0 < j < self.entries.len() ==> self.at_first().key().below(
                    &(#[trigger] self.item_at(j)).0,
                ),
            forall|j: int|
                0 <= j < self.entries.len() - 1 ==> (#[trigger] self.item_at(j)).0.below(
                    &self.at_last().key(),
                ),
    {
        let n = self.entries.len() as int;
        assert forall|j: int| 0 < j < n implies self.at_first().key().below(
            &(#[trigger] self.item_at(j)).0,
        ) by {
            self.lemma_keys_rise(0, j);
        }
        assert forall|j: int| 0 <= j < n - 1 implies (#[trigger] self.item_at(j)).0.below(
            &self.at_last().key(),
        ) by {
            self.lemma_keys_rise(j, n - 1);
        }
    }

    /// A seek parts the entries by the order of the keys: the keys before
    /// the place it lands on are below the target, and no other key is. So
    /// it lands on the least key that is not below the target, and on no
    /// entry when every key is below it.
    pub proof fn lemma_seek_in_key_order(self, key: K)
        requires
            self.wf(),
        ensures
            0 <= self.sought(key).pos <= self.entries.len(),
            forall|j: int|
                0 <= j < self.entries.len() ==> (j < self.sought(key).pos <==> (
                #[trigger] self.item_at(j)).0.below(&key)),
    {
        lemma_lower_bound_parts(self.entries, key.encoded());
        assert forall|j: int| 0 <= j < self.entries.len() implies (j < self.sought(key).pos <==> (
        #[trigger] self.item_at(j)).0.below(&key)) by {
            self.item_at(j).0.order_preserved(&key);
        }
    }

    /// Seeking to a key below every key of the store leaves the cursor at
    /// the first entry, and valid there unless the traversal has stopped;
    /// seeking to a key that every key of the store is below leaves it at none.
    pub proof fn lemma_seek_outside(self, key: K)
        requires
            self.wf(),
        ensures
            (forall|i: int|
                0 <= i < self.entries.len() ==> key.below(&(#[trigger] self.item_at(i)).0)) ==> {
                &&& self.sought(key).pos == 0
                &&& self.sought(key).valid() == (self.entries.len() > 0 && !self.stopped)
                &&& self.sought(key).valid() ==> self.sought(key).entry() == self.item_at(0)
            },
            (forall|i: int|
                0 <= i < self.entries.len() ==> (#[trigger] self.item_at(i)).0.below(&key))
                ==> !self.sought(key).positioned() && !self.sought(key).valid(),
    {
        self.lemma_seek_in_key_order(key);
        let p = self.sought(key).pos;
        if forall|i: int|
            0 <= i < self.entries.len() ==> key.below(&(#[trigger] self.item_at(i)).0) {
            if p > 0 {
                assert(self.item_at(0).0.below(&key));
                lemma_below_asymmetric(self.item_at(0).0, key);
            }
        }
        if forall|i: int|
            0 <= i < self.entries.len() ==> (#[trigger] self.item_at(i)).0.below(&key) {
            if p < self.entries.len() {
                assert(self.item_at(p).0.below(&key));
            }
        }
    }

    /// A key that is not below the upper bound has no key below the bound behind it.
    proof fn lemma_beyond_stays_beyond(self, b: int, j: int, end: K)
        requires
            self.wf(),
            0 <= b <= j < self.entries.len(),
            !self.item_at(b).0.below(&end),
        ensures
            !self.item_at(j).0.below(&end),
    {
        if b < j && self.item_at(j).0.below(&end) {
            self.lemma_keys_rise(b, j);
            lemma_below_transitive(self.item_at(b).0, self.item_at(j).0, end);
        }
    }

    /// What the bounds mean to a forward traversal that has not started. It
    /// sets out at the least key that is not below the lower bound, or
    /// where the cursor stands when there is no such bound, and yields that
    /// entry whatever its key. After it come, in rising order, exactly the
    /// later entries whose keys are below the upper bound.
    pub proof fn lemma_forward_range(self)
        requires
            self.wf(),
            !self.started,
            !self.stopped,
        ensures
            ({
                let n = self.entries.len();
                let a = self.landing();
                let b = if a < n {
                    self.cut(a + 1)
                } else {
                    a
                };
                &&& 0 <= a <= b <= n
                &&& self.remaining(false) == self.run_up(a, b)
                &&& match self.from {
                    Some(begin) => forall|j: int|
                        0 <= j < n ==> (j < a <==> (#[trigger] self.item_at(j)).0.below(&begin)),
                    None => a == self.pos,
                }
                &&& match self.to {
                    Some(end) => forall|j: int|
                        a < j < n ==> (j < b <==> (#[trigger] self.item_at(j)).0.below(&end)),
                    None => a < n ==> b == n,
                }
            }),
    {
        let n = self.entries.len() as int;
        let a = self.landing();
        if let Some(begin) = self.from {
            self.lemma_seek_in_key_order(begin);
        }
        if a < n {
            self.lemma_cut(a + 1);
            let b = self.cut(a + 1);
            assert(self.remaining(false) =~= self.run_up(a, b));
            match self.to {
                Some(end) => {
                    assert forall|j: int| a < j < n implies (j < b <==> (
                    #[trigger] self.item_at(j)).0.below(&end)) by {
                        if j < b {
                            assert(!self.reaches(j));
                        } else {
                            assert(self.reaches(b));
                            self.lemma_beyond_stays_beyond(b, j, end);
                        }
                    }
                },
                None => {
                    self.lemma_cut_runs_out(a + 1);
                },
            }
        } else {
            assert(self.remaining(false) =~= self.run_up(a, a));
        }
    }

    /// What the bounds mean to a backward traversal that has not started. It
    /// sets out at the least key that is not below the lower bound, or
    /// where the cursor stands when there is no such bound, and yields from
    /// there every entry down to the first of the keyspace, in falling
    /// order. The upper bound has no part in it.
    pub proof fn lemma_backward_range(self)
        requires
            self.wf(),
            !self.started,
            !self.stopped,
        ensures
            ({
                let n = self.entries.len();
                let a = self.landing();
                &&& 0 <= a <= n
                &&& self.remaining(true) == if a < n {
                    self.run_down(a)
                } else {
                    Seq::empty()
                }
                &&& self.remaining(true) == (Cursor { to: None, ..self }).remaining(true)
                &&& match self.from {
                    Some(begin) => forall|j: int|
                        0 <= j < n ==> (j < a <==> (#[trigger] self.item_at(j)).0.below(&begin)),
                    None => a == self.pos,
                }
            }),
    {
        if let Some(begin) = self.from {
            self.lemma_seek_in_key_order(begin);
        }
        assert(self.remaining(true) =~= (Cursor { to: None, ..self }).remaining(true));
    }

    /// A traversal yields its keys in strict order: rising when it walks
    /// forward, falling when it walks backward.
    pub proof fn lemma_remaining_in_key_order(self, backward: bool)
        requires
            self.wf(),
        ensures
            forall|i: int, j: int|
                #![trigger self.remaining(backward)[i], self.remaining(backward)[j]]
                0 <= i < j < self.remaining(backward).len() ==> if backward {
                    self.remaining(backward)[j].0.below(&self.remaining(backward)[i].0)
                } else {
                    self.remaining(backward)[i].0.below(&self.remaining(backward)[j].0)
                },
    {
        let n = self.entries.len() as int;
        let rem = self.remaining(backward);
        self.lemma_moves_keep_wf(backward, arbitrary());
        let base = if self.started {
            if backward {
                self.pos - 1
            } else {
                self.pos + 1
            }
        } else {
            self.landing()
        };
        if !backward && rem.len() > 0 {
            if self.started {
                self.lemma_cut(self.pos + 1);
            } else {
                self.lemma_cut(self.landing() + 1);
            }
        }
        assert forall|i: int, j: int|
            #![trigger self.remaining(backward)[i], self.remaining(backward)[j]]
            0 <= i < j < rem.len() implies if backward {
            rem[j].0.below(&rem[i].0)
        } else {
            rem[i].0.below(&rem[j].0)
        } by {
            if backward {
                assert(rem[i] == self.item_at(base - i));
                assert(rem[j] == self.item_at(base - j));
                self.lemma_keys_rise(base - j, base - i);
            } else {
                assert(rem[i] == self.item_at(base + i));
                assert(rem[j] == self.item_at(base + j));
                self.lemma_keys_rise(base + i, base + j);
            }
        }
    }

    /// Key-only and value-only traversals yield, element for element, the
    /// halves of what the traversal of whole entries yields.
    pub proof fn lemma_projections_agree(self, backward: bool)
        ensures
            self.remaining_keys(backward).len() == self.remaining(backward).len(),
            self.remaining_values(backward).len() == self.remaining(backward).len(),
            forall|i: int|
                0 <= i < self.remaining(backward).len() ==> self.remaining(backward)[i] == (
                    #[trigger] self.remaining_keys(backward)[i],
                    self.remaining_values(backward)[i],
                ),
    {
    }
}

} // verus!
