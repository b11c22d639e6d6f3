//! Identifiers that can be compared, ordered and copied.

use vstd::prelude::*;

verus! {

/// An identifier with a total order: value IDs, slots, epochs, replica IDs.
///
/// The order is given by an integer rank, so everything that is known about
/// the order of integers is known about the order of keys.
pub trait Key: Sized {
    /// The position of this key in the order.
    spec fn rank(self) -> int;

    /// Keys of equal rank are equal.
    proof fn rank_is_injective(a: Self, b: Self)
        requires
            a.rank() == b.rank(),
        ensures
            a == b,
    ;

    /// Whether this key comes before `other`.
    fn precedes(&self, other: &Self) -> (earlier: bool)
        ensures
            earlier == (self.rank() < other.rank()),
    ;

    /// Whether the two keys are the same.
    fn same(&self, other: &Self) -> (equal: bool)
        ensures
            equal == (*self == *other),
    ;

    /// A copy of this key.
    fn duplicate(&self) -> (copy: Self)
        ensures
            copy == *self,
    ;
}

/// A value that can be copied without changing what it stands for.
pub trait Duplicate: View + Sized {
    /// A copy with the same view.
    fn duplicate_value(&self) -> (copy: Self)
        ensures
            copy@ == self@,
    ;
}

/// Equal ranks mean equal keys, for any two keys at once.
pub proof fn lemma_rank_injective<K: Key>()
    ensures
        forall|a: K, b: K| #![trigger a.rank(), b.rank()] a.rank() == b.rank() ==> a == b,
{
    assert forall|a: K, b: K| #![trigger a.rank(), b.rank()] a.rank() == b.rank() implies a
        == b by {
        K::rank_is_injective(a, b);
    }
}

impl Key for u64 {
    open spec fn rank(self) -> int {
        self as int
    }

    proof fn rank_is_injective(a: Self, b: Self) {
    }

    fn precedes(&self, other: &Self) -> (earlier: bool) {
        *self < *other
    }

    fn same(&self, other: &Self) -> (equal: bool) {
        *self == *other
    }

    fn duplicate(&self) -> (copy: Self) {
        *self
    }
}

impl Duplicate for u64 {
    fn duplicate_value(&self) -> (copy: Self) {
        *self
    }
}

/// The big-endian number that a string of bytes spells.
pub open spec fn big_endian(bytes: Seq<u8>) -> int
    decreases bytes.len(),
{
    if bytes.len() == 0 {
        0
    } else {
        big_endian(bytes.drop_last()) * 256 + bytes.last() as int
    }
}

/// Two byte strings of one length compare as the numbers they spell: the first
/// difference decides.
proof fn lemma_big_endian_order(a: Seq<u8>, b: Seq<u8>, split: int)
    requires
        a.len() == b.len(),
        0 <= split < a.len(),
        a.take(split) == b.take(split),
        a[split] < b[split],
    ensures
        big_endian(a) < big_endian(b),
    decreases a.len(),
{
    if split == a.len() - 1 {
        assert(a.drop_last() =~= a.take(split));
        assert(b.drop_last() =~= b.take(split));
    } else {
        assert(a.drop_last().take(split) =~= a.take(split));
        assert(b.drop_last().take(split) =~= b.take(split));
        lemma_big_endian_order(a.drop_last(), b.drop_last(), split);
    }
}

/// Byte strings of one length that spell the same number are equal.
pub proof fn lemma_big_endian_injective(a: Seq<u8>, b: Seq<u8>)
    requires
        a.len() == b.len(),
        big_endian(a) == big_endian(b),
    ensures
        a == b,
    decreases a.len(),
{
    if a.len() > 0 {
        assert(a.last() == b.last() && big_endian(a.drop_last()) == big_endian(b.drop_last())) by {
            let (x, y) = (big_endian(a.drop_last()), big_endian(b.drop_last()));
            assert(x * 256 + a.last() as int == y * 256 + b.last() as int);
        }
        lemma_big_endian_injective(a.drop_last(), b.drop_last());
        assert(a =~= a.drop_last().push(a.last()));
        assert(b =~= b.drop_last().push(b.last()));
    } else {
        assert(a =~= b);
    }
}

/// Compares two byte strings of one length: negative, zero or positive as the
/// first comes before, equals or comes after the second.
fn compare_bytes(a: &[u8], b: &[u8]) -> (sign: i8)
    requires
        a@.len() == b@.len(),
    ensures
        sign == 0 <==> a@ == b@,
        sign < 0 <==> big_endian(a@) < big_endian(b@),
        sign > 0 <==> big_endian(a@) > big_endian(b@),
{
    let mut i: usize = 0;
    while i < a.len()
        invariant
            i <= a@.len() == b@.len(),
            a@.take(i as int) == b@.take(i as int),
        decreases a@.len() - i,
    {
        if a[i] < b[i] {
            proof {
                lemma_big_endian_order(a@, b@, i as int);
            }
            return -1;
        }
        if b[i] < a[i] {
            proof {
                lemma_big_endian_order(b@, a@, i as int);
            }
            return 1;
        }
        assert(a@.take(i + 1) =~= a@.take(i as int).push(a@[i as int]));
        assert(b@.take(i + 1) =~= b@.take(i as int).push(b@[i as int]));
        i += 1;
    }
    assert(a@.take(i as int) =~= a@);
    assert(b@.take(i as int) =~= b@);
    0
}

impl Key for [u8; 32] {
    open spec fn rank(self) -> int {
        big_endian(self@)
    }

    proof fn rank_is_injective(a: Self, b: Self) {
        lemma_big_endian_injective(a@, b@);
        assert(a =~= b);
    }

    fn precedes(&self, other: &Self) -> (earlier: bool) {
        compare_bytes(self.as_slice(), other.as_slice()) < 0
    }

    fn same(&self, other: &Self) -> (equal: bool) {
        let sign: i8 = compare_bytes(self.as_slice(), other.as_slice());
        proof {
            if sign == 0 {
                assert(*self =~= *other);
            }
        }
        sign == 0
    }

    fn duplicate(&self) -> (copy: Self) {
        *self
    }
}

impl Key for [u8; 16] {
    open spec fn rank(self) -> int {
        big_endian(self@)
    }

    proof fn rank_is_injective(a: Self, b: Self) {
        lemma_big_endian_injective(a@, b@);
        assert(a =~= b);
    }

    fn precedes(&self, other: &Self) -> (earlier: bool) {
        compare_bytes(self.as_slice(), other.as_slice()) < 0
    }

    fn same(&self, other: &Self) -> (equal: bool) {
        let sign: i8 = compare_bytes(self.as_slice(), other.as_slice());
        proof {
            if sign == 0 {
                assert(*self =~= *other);
            }
        }
        sign == 0
    }

    fn duplicate(&self) -> (copy: Self) {
        *self
    }
}

/// Keys of bytes come in the order of the first byte in which they differ, and
/// numbers in the order of their size.
pub proof fn keys_go_by_their_first_difference(
    a: [u8; 32],
    b: [u8; 32],
    c: [u8; 16],
    d: [u8; 16],
    split: int,
    m: u64,
    n: u64,
)
    ensures
        0 <= split < 32 && a@.take(split) == b@.take(split) && a@[split] < b@[split] ==> a.rank()
            < b.rank(),
        0 <= split < 16 && c@.take(split) == d@.take(split) && c@[split] < d@[split] ==> c.rank()
            < d.rank(),
        m.rank() < n.rank() <==> m < n,
{
    if 0 <= split < 32 && a@.take(split) == b@.take(split) && a@[split] < b@[split] {
        lemma_big_endian_order(a@, b@, split);
    }
    if 0 <= split < 16 && c@.take(split) == d@.take(split) && c@[split] < d@[split] {
        lemma_big_endian_order(c@, d@, split);
    }
}

} // verus!
