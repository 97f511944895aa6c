//! Key codecs.
//!
//! A key type tells how its values are written as raw keys and read back.
//! The store orders raw keys byte by byte, so a codec has to write its keys
//! in such a way that the bytes stand in the order of the keys.
use vstd::prelude::*;
use crate::database::comparator::{
    lemma_precedes_asymmetric, lemma_precedes_total, lemma_precedes_transitive, precedes,
    splits_below,
};

verus! {

/// A key type with its codec.
pub trait Serializable: Sized {
    /// The raw key that stands for this key.
    spec fn encoded(&self) -> Seq<u8>;

    /// Whether a raw key has the shape of an encoded key of this type.
    spec fn decodable(key: Seq<u8>) -> bool;

    /// The key that a raw key of the right shape stands for.
    spec fn decoded(key: Seq<u8>) -> Self;

    /// The order of the keys: this key comes strictly before `other`.
    spec fn below(&self, other: &Self) -> bool;

    /// Every encoded key has the right shape and decodes to the key it was made from.
    proof fn round_trip(&self)
        ensures
            Self::decodable(self.encoded()),
            Self::decoded(self.encoded()) == *self,
    ;

    /// The raw keys stand in the order of the keys they stand for.
    proof fn order_preserved(&self, other: &Self)
        ensures
            precedes(self.encoded(), other.encoded()) <==> self.below(other),
    ;

    /// Tells whether a raw key has the shape of an encoded key of this type.
    fn can_decode(key: &[u8]) -> (b: bool)
        ensures
            b == Self::decodable(key@),
    ;

    /// Reads a key from its raw form.
    fn from_u8(key: &[u8]) -> (k: Self)
        requires
            Self::decodable(key@),
        ensures
            k == Self::decoded(key@),
    ;

    /// Writes this key in its raw form.
    fn as_u8(&self) -> (key: Vec<u8>)
        ensures
            key@ == self.encoded(),
    ;
}

/// Reads a key of type `K` from its raw form.
pub fn from_u8<K: Serializable>(key: &[u8]) -> (k: K)
    requires
        K::decodable(key@),
    ensures
        k == K::decoded(key@),
{
    K::from_u8(key)
}

/// Two keys with the same raw form are the same key.
pub proof fn lemma_encoded_injective<K: Serializable>(a: K, b: K)
    requires
        a.encoded() == b.encoded(),
    ensures
        a == b,
{
    a.round_trip();
    b.round_trip();
}

/// The order of the keys is strict: of two keys at most one comes before
/// the other, and no key before itself.
pub proof fn lemma_below_asymmetric<K: Serializable>(a: K, b: K)
    requires
        a.below(&b),
    ensures
        !b.below(&a),
        a != b,
{
    a.order_preserved(&b);
    b.order_preserved(&a);
    a.order_preserved(&a);
    lemma_precedes_asymmetric(a.encoded(), b.encoded());
}

/// The order of the keys is transitive.
pub proof fn lemma_below_transitive<K: Serializable>(a: K, b: K, c: K)
    requires
        a.below(&b),
        b.below(&c),
    ensures
        a.below(&c),
{
    a.order_preserved(&b);
    b.order_preserved(&c);
    a.order_preserved(&c);
    lemma_precedes_transitive(a.encoded(), b.encoded(), c.encoded());
}

/// The order of the keys is total: two keys are the same or one comes before the other.
pub proof fn lemma_below_total<K: Serializable>(a: K, b: K)
    ensures
        a == b || a.below(&b) || b.below(&a),
{
    a.order_preserved(&b);
    b.order_preserved(&a);
    lemma_precedes_total(a.encoded(), b.encoded());
    if a.encoded() == b.encoded() {
        lemma_encoded_injective(a, b);
    }
}

/// The number that four bytes spell, most significant byte first.
pub open spec fn big_endian(key: Seq<u8>) -> int
    recommends
        key.len() == 4,
{
    key[0] * 0x100_0000 + key[1] * 0x1_0000 + key[2] * 0x100 + key[3]
}

/// The place of `k` among the `i32` values, counted from the least one.
pub open spec fn biased(k: i32) -> int {
    k + 0x8000_0000
}

/// An `i32` is written as the four bytes of its distance from the least
/// `i32`, most significant byte first, so that the bytes of a smaller
/// number come first, whatever the signs.
impl Serializable for i32 {
    open spec fn encoded(&self) -> Seq<u8> {
        let u = biased(*self);
        seq![
            (u / 0x100_0000) as u8,
            (u / 0x1_0000 % 0x100) as u8,
            (u / 0x100 % 0x100) as u8,
            (u % 0x100) as u8,
        ]
    }

    open spec fn decodable(key: Seq<u8>) -> bool {
        key.len() == 4
    }

    open spec fn decoded(key: Seq<u8>) -> i32 {
        (big_endian(key) - 0x8000_0000) as i32
    }

    open spec fn below(&self, other: &i32) -> bool {
        *self < *other
    }

    proof fn round_trip(&self) {
        lemma_i32_big_endian(*self);
    }

    proof fn order_preserved(&self, other: &i32) {
        lemma_i32_order_preserved(*self, *other);
    }

    fn can_decode(key: &[u8]) -> (b: bool) {
        key.len() == 4
    }

    fn from_u8(key: &[u8]) -> (k: i32) {
        let high: u32 = key[0] as u32 * 0x100_0000;
        let u: u32 = high + key[1] as u32 * 0x1_0000 + key[2] as u32 * 0x100 + key[3] as u32;
        if u >= 0x8000_0000 {
            (u - 0x8000_0000) as i32
        } else {
            u as i32 + i32::MIN
        }
    }

    fn as_u8(&self) -> (key: Vec<u8>) {
        let k: i32 = *self;
        let u: u32 = if k < 0 {
            (k - i32::MIN) as u32
        } else {
            k as u32 + 0x8000_0000
        };
        let key = vec![
            (u / 0x100_0000) as u8,
            (u / 0x1_0000 % 0x100) as u8,
            (u / 0x100 % 0x100) as u8,
            (u % 0x100) as u8,
        ];
        assert(key@ =~= self.encoded());
        key
    }
}

/// The four bytes of an encoded `i32` spell its place among the `i32` values.
pub proof fn lemma_i32_big_endian(k: i32)
    ensures
        k.encoded().len() == 4,
        big_endian(k.encoded()) == biased(k),
        i32::decoded(k.encoded()) == k,
{
}

/// Among raw keys of four bytes the one that comes first spells the smaller number.
pub proof fn lemma_big_endian_order(a: Seq<u8>, b: Seq<u8>)
    requires
        a.len() == 4,
        b.len() == 4,
    ensures
        precedes(a, b) <==> big_endian(a) < big_endian(b),
{
    if precedes(a, b) {
        lemma_splits_spell_less(a, b);
    } else {
        lemma_precedes_total(a, b);
        if precedes(b, a) {
            lemma_splits_spell_less(b, a);
        }
    }
}

proof fn lemma_splits_spell_less(a: Seq<u8>, b: Seq<u8>)
    requires
        a.len() == 4,
        b.len() == 4,
        precedes(a, b),
    ensures
        big_endian(a) < big_endian(b),
{
    let n = choose|n: int| #[trigger] splits_below(a, b, n);
    if n == 1 {
        assert(a[0] == b[0]);
    } else if n == 2 {
        assert(a[0] == b[0] && a[1] == b[1]);
    } else if n == 3 {
        assert(a[0] == b[0] && a[1] == b[1] && a[2] == b[2]);
    }
}

/// Any two `i32` keys stand in the store in the order of their numbers.
pub proof fn lemma_i32_order_preserved(a: i32, b: i32)
    ensures
        precedes(a.encoded(), b.encoded()) <==> a < b,
{
    lemma_i32_big_endian(a);
    lemma_i32_big_endian(b);
    lemma_big_endian_order(a.encoded(), b.encoded());
}

} // verus!
