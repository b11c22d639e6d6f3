//! Fixed-width big-endian numbers.

use crate::key;
use crate::key::Duplicate;
use vstd::prelude::*;

verus! {

/// A number as `width` big-endian bytes.
pub open spec fn be_bytes(value: nat, width: nat) -> Seq<u8>
    decreases width,
{
    if width == 0 {
        Seq::empty()
    } else {
        be_bytes(value / 256, (width - 1) as nat).push((value % 256) as u8)
    }
}

/// Two hundred fifty-six to the power of `width`.
pub open spec fn capacity(width: nat) -> nat
    decreases width,
{
    if width == 0 {
        1
    } else {
        256 * capacity((width - 1) as nat)
    }
}

/// The bytes of a number spell that number.
pub proof fn lemma_be_bytes(value: nat, width: nat)
    ensures
        be_bytes(value, width).len() == width,
        value < capacity(width) ==> key::big_endian(be_bytes(value, width)) == value,
    decreases width,
{
    if width > 0 {
        let rest = (width - 1) as nat;
        lemma_be_bytes(value / 256, rest);
        let whole = be_bytes(value, width);
        assert(whole.drop_last() =~= be_bytes(value / 256, rest));
        assert(whole.last() == (value % 256) as u8);
        if value < capacity(width) {
            assert(value / 256 < capacity(rest));
        }
    }
}

/// Eight bytes hold every `u64`.
pub proof fn lemma_capacity()
    ensures
        capacity(4) == 0x1_0000_0000,
        capacity(8) == 0x1_0000_0000_0000_0000,
{
    assert(capacity(4) == 0x1_0000_0000) by {
        reveal_with_fuel(capacity, 5);
    }
    assert(capacity(8) == 0x1_0000_0000_0000_0000) by {
        reveal_with_fuel(capacity, 9);
    }
}

/// Numbers that fit are told apart by their bytes.
pub proof fn lemma_be_bytes_injective(a: nat, b: nat, width: nat)
    requires
        a < capacity(width),
        b < capacity(width),
        be_bytes(a, width) == be_bytes(b, width),
    ensures
        a == b,
{
    lemma_be_bytes(a, width);
    lemma_be_bytes(b, width);
}

/// Appends a number as `width` big-endian bytes.
pub fn push_be(bytes: &mut Vec<u8>, value: u64, width: u8)
    ensures
        final(bytes)@ == old(bytes)@ + be_bytes(value as nat, width as nat),
    decreases width,
{
    if width > 0 {
        push_be(bytes, value / 256, width - 1);
        bytes.push((value % 256) as u8);
    }
    assert(bytes@ =~= old(bytes)@ + be_bytes(value as nat, width as nat));
}

/// Appends a list of bytes.
pub fn push_all(bytes: &mut Vec<u8>, more: &[u8])
    ensures
        final(bytes)@ == old(bytes)@ + more@,
{
    let mut i: usize = 0;
    while i < more.len()
        invariant
            i <= more@.len(),
            bytes@ == old(bytes)@ + more@.take(i as int),
        decreases more@.len() - i,
    {
        bytes.push(more[i]);
        assert(more@.take(i + 1) =~= more@.take(i as int).push(more@[i as int]));
        assert(bytes@ =~= old(bytes)@ + more@.take(i + 1));
        i += 1;
    }
    assert(more@.take(i as int) =~= more@);
}

/// Whether two byte strings are equal.
pub fn same_bytes(a: &[u8], b: &[u8]) -> (equal: bool)
    ensures
        equal == (a@ == b@),
{
    if a.len() != b.len() {
        return false;
    }
    let mut i: usize = 0;
    while i < a.len()
        invariant
            i <= a@.len() == b@.len(),
            forall|j: int| 0 <= j < i ==> a@[j] == b@[j],
        decreases a@.len() - i,
    {
        if a[i] != b[i] {
            return false;
        }
        i += 1;
    }
    assert(a@ =~= b@);
    true
}

/// A copy of a byte string.
pub fn copy_bytes(bytes: &[u8]) -> (copy: Vec<u8>)
    ensures
        copy@ == bytes@,
{
    let mut copy: Vec<u8> = Vec::new();
    push_all(&mut copy, bytes);
    assert(copy@ =~= bytes@);
    copy
}

impl Duplicate for Vec<u8> {
    fn duplicate_value(&self) -> (copy: Self) {
        copy_bytes(self.as_slice())
    }
}

} // verus!
