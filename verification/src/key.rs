//! Keys and the bits that steer a walk through the tree.

use vstd::prelude::*;

verus! {

/// A 256-bit key. Bit 0 is the most significant bit of byte 0.
pub type Key = [u8; 32];

/// Number of levels between the root and the leaves.
pub const MAX_TREE_LEVELS: usize = 256;

/// Index of the last bit of a key.
pub const LAST_BIT_INDEX: usize = 255;

/// Bit `i` of a key: `false` leads to the left child at level `i`, `true` to
/// the right one.
pub open spec fn bit(key: Seq<u8>, i: int) -> bool {
    (key[i / 8] >> ((7 - i % 8) as u8)) & 1u8 == 1u8
}

/// The key `key` with bit `i` set to `b`.
pub open spec fn with_bit(key: Seq<u8>, i: int, b: bool) -> Seq<u8> {
    let mask = 0x80u8 >> ((i % 8) as u8);
    key.update(
        i / 8,
        if b {
            key[i / 8] | mask
        } else {
            key[i / 8] & !mask
        },
    )
}

/// The two keys agree on every bit before `h`.
pub open spec fn same_until(a: Seq<u8>, b: Seq<u8>, h: int) -> bool {
    forall|i: int| 0 <= i < h ==> bit(a, i) == bit(b, i)
}

/// The two keys agree on every bit from `h` on.
pub open spec fn same_from(a: Seq<u8>, b: Seq<u8>, h: int) -> bool {
    forall|i: int| h <= i < 256 ==> bit(a, i) == bit(b, i)
}

/// The key with all bits clear.
pub open spec fn zero_key() -> Seq<u8> {
    Seq::new(32, |i: int| 0u8)
}

proof fn lemma_byte_with_bit(x: u8, p: u8, q: u8, b: bool)
    requires
        p < 8,
        q < 8,
    ensures
        ({
            let mask = 0x80u8 >> p;
            let y = if b { x | mask } else { x & !mask };
            ((y >> (7 - q) as u8) & 1u8 == 1u8) == (if p == q { b } else { (x >> (7 - q) as u8) & 1u8 == 1u8 })
        }),
{
    let mask = 0x80u8 >> p;
    if b {
        assert((((x | (0x80u8 >> p)) >> (7 - q) as u8) & 1u8 == 1u8) == (if p == q { true } else { (x >> (7 - q) as u8) & 1u8 == 1u8 })) by (bit_vector)
            requires
                p < 8,
                q < 8,
        ;
    } else {
        assert((((x & !(0x80u8 >> p)) >> (7 - q) as u8) & 1u8 == 1u8) == (if p == q { false } else { (x >> (7 - q) as u8) & 1u8 == 1u8 })) by (bit_vector)
            requires
                p < 8,
                q < 8,
        ;
    }
}

proof fn lemma_byte_by_bits(x: u8, y: u8)
    requires
        forall|q: u8| q < 8 ==> ((x >> q) & 1u8 == 1u8) == ((y >> q) & 1u8 == 1u8),
    ensures
        x == y,
{
    assert(((x >> 0u8) & 1u8 == 1u8) == ((y >> 0u8) & 1u8 == 1u8));
    assert(((x >> 1u8) & 1u8 == 1u8) == ((y >> 1u8) & 1u8 == 1u8));
    assert(((x >> 2u8) & 1u8 == 1u8) == ((y >> 2u8) & 1u8 == 1u8));
    assert(((x >> 3u8) & 1u8 == 1u8) == ((y >> 3u8) & 1u8 == 1u8));
    assert(((x >> 4u8) & 1u8 == 1u8) == ((y >> 4u8) & 1u8 == 1u8));
    assert(((x >> 5u8) & 1u8 == 1u8) == ((y >> 5u8) & 1u8 == 1u8));
    assert(((x >> 6u8) & 1u8 == 1u8) == ((y >> 6u8) & 1u8 == 1u8));
    assert(((x >> 7u8) & 1u8 == 1u8) == ((y >> 7u8) & 1u8 == 1u8));
    assert(x == y) by (bit_vector)
        requires
            ((x >> 0u8) & 1u8 == 1u8) == ((y >> 0u8) & 1u8 == 1u8),
            ((x >> 1u8) & 1u8 == 1u8) == ((y >> 1u8) & 1u8 == 1u8),
            ((x >> 2u8) & 1u8 == 1u8) == ((y >> 2u8) & 1u8 == 1u8),
            ((x >> 3u8) & 1u8 == 1u8) == ((y >> 3u8) & 1u8 == 1u8),
            ((x >> 4u8) & 1u8 == 1u8) == ((y >> 4u8) & 1u8 == 1u8),
            ((x >> 5u8) & 1u8 == 1u8) == ((y >> 5u8) & 1u8 == 1u8),
            ((x >> 6u8) & 1u8 == 1u8) == ((y >> 6u8) & 1u8 == 1u8),
            ((x >> 7u8) & 1u8 == 1u8) == ((y >> 7u8) & 1u8 == 1u8),
    ;
}

/// Setting bit `i` changes bit `i` and no other.
pub proof fn lemma_with_bit(key: Seq<u8>, i: int, b: bool, j: int)
    requires
        key.len() == 32,
        0 <= i < 256,
        0 <= j < 256,
    ensures
        with_bit(key, i, b).len() == 32,
        bit(with_bit(key, i, b), j) == (if i == j { b } else { bit(key, j) }),
{
    if i / 8 == j / 8 {
        lemma_byte_with_bit(key[i / 8], (i % 8) as u8, (j % 8) as u8, b);
    }
}

/// Two keys that agree on all 256 bits are equal.
pub proof fn lemma_key_by_bits(a: Seq<u8>, b: Seq<u8>)
    requires
        a.len() == 32,
        b.len() == 32,
        same_from(a, b, 0),
    ensures
        a == b,
{
    assert forall|n: int| 0 <= n < 32 implies a[n] == b[n] by {
        assert forall|q: u8| q < 8 implies ((a[n] >> q) & 1u8 == 1u8) == ((b[n] >> q) & 1u8 == 1u8) by {
            let i = 8 * n + (7 - q);
            assert(i / 8 == n && i % 8 == 7 - q);
            assert(bit(a, i) == bit(b, i));
            assert((7 - i % 8) as u8 == q);
        }
        lemma_byte_by_bits(a[n], b[n]);
    }
    assert(a =~= b);
}

/// Reads bit `i` of `key`.
pub fn bit_index(i: usize, key: &Key) -> (r: bool)
    requires
        i < 256,
    ensures
        r == bit(key@, i as int),
{
    let byte: u8 = key[i / 8];
    let shift: u8 = (7 - (i % 8)) as u8;
    (byte >> shift) & 1u8 == 1u8
}

/// Tells whether two keys agree on every bit from `h` on.
pub fn suffix_eq(a: &Key, b: &Key, h: usize) -> (r: bool)
    requires
        h <= 256,
    ensures
        r == same_from(a@, b@, h as int),
{
    let mut i: usize = h;
    while i < 256
        invariant
            h <= i <= 256,
            forall|j: int| h <= j < i ==> bit(a@, j) == bit(b@, j),
        decreases 256 - i,
    {
        if bit_index(i, a) != bit_index(i, b) {
            return false;
        }
        i = i + 1;
    }
    true
}

/// Finds the first bit at or after `h` on which two keys differ.
pub fn first_difference(a: &Key, b: &Key, h: usize) -> (d: usize)
    requires
        h <= 256,
        !same_from(a@, b@, h as int),
    ensures
        h <= d < 256,
        bit(a@, d as int) != bit(b@, d as int),
        forall|j: int| h <= j < d ==> bit(a@, j) == bit(b@, j),
{
    let mut i: usize = h;
    while i < 256
        invariant
            h <= i <= 256,
            forall|j: int| h <= j < i ==> bit(a@, j) == bit(b@, j),
        decreases 256 - i,
    {
        if bit_index(i, a) != bit_index(i, b) {
            return i;
        }
        i = i + 1;
    }
    proof {
        assert(same_from(a@, b@, h as int));
    }
    255
}

} // verus!
