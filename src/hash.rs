//! The one outside hash function that the index is built on.

use vstd::prelude::*;

verus! {

/// The SeaHash digest of `buf` under the four seeds `a`, `b`, `c`, `d`.
pub uninterp spec fn sea_hash_seeded(buf: Seq<u8>, a: u64, b: u64, c: u64, d: u64) -> u64;

/// Relies on `seahash::hash_seeded`: the digest is a function of the bytes
/// and the four seeds alone.
#[verifier::external_body]
pub(crate) fn hash_seeded(buf: &[u8], a: u64, b: u64, c: u64, d: u64) -> (r: u64)
    ensures
        r == sea_hash_seeded(buf@, a, b, c, d),
{
    seahash::hash_seeded(buf, a, b, c, d)
}

/// Byte-wise equality of two keys.
pub fn bytes_eq(a: &[u8], b: &[u8]) -> (r: bool)
    ensures
        r == (a@ == b@),
{
    if a.len() != b.len() {
        return false;
    }
    let mut i: usize = 0;
    while i < a.len()
        invariant
            a@.len() == b@.len(),
            i <= a@.len(),
            a@.subrange(0, i as int) == b@.subrange(0, i as int),
        decreases a@.len() - i,
    {
        if a[i] != b[i] {
            assert(a@[i as int] != b@[i as int]);
            return false;
        }
        assert(a@.subrange(0, i + 1) == a@.subrange(0, i as int).push(a@[i as int]));
        assert(b@.subrange(0, i + 1) == b@.subrange(0, i as int).push(b@[i as int]));
        i = i + 1;
    }
    assert(a@ == a@.subrange(0, a@.len() as int));
    assert(b@ == b@.subrange(0, b@.len() as int));
    true
}

} // verus!
