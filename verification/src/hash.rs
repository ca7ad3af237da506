//! The djb2 string hash and the hashing capability for key types.

use vstd::prelude::*;
use vstd::string::StringSliceAdditionalSpecFns;

verus! {

/// One accumulation step of the djb2 hash: multiply the accumulator by 33
/// and add the next byte, with silent wraparound at the machine word width.
pub open spec fn djb2_step(h: usize, b: u8) -> usize {
    vstd::wrapping::usize_specs::wrapping_add(
        vstd::wrapping::usize_specs::wrapping_mul(h, 33),
        b as usize,
    )
}

/// The djb2 hash of a byte sequence: the accumulator is seeded at 5381 and
/// each byte is folded in from the left by `djb2_step`.
pub open spec fn djb2(bytes: Seq<u8>) -> usize
    decreases bytes.len(),
{
    if bytes.len() == 0 {
        5381
    } else {
        djb2_step(djb2(bytes.drop_last()), bytes.last())
    }
}

/// The capability a key type must provide: a deterministic hash and a
/// decidable equality.  Both methods are pure: `hash` returns exactly the
/// mathematical value `hash_spec`, so identical key content always hashes
/// alike, and `key_eq` returns exactly `key_eq_spec`.
pub trait Hashable {
    /// The mathematical hash value of this key.
    spec fn hash_spec(&self) -> usize;

    /// When this key and `other` count as the same key.
    spec fn key_eq_spec(&self, other: &Self) -> bool;

    /// Computes the hash of this key.
    fn hash(&self) -> (h: usize)
        ensures
            h == self.hash_spec(),
    ;

    /// Decides whether this key equals `other`.
    fn key_eq(&self, other: &Self) -> (r: bool)
        ensures
            r == self.key_eq_spec(other),
    ;
}

impl Hashable for String {
    /// An owned string hashes as the djb2 hash of its UTF-8 bytes.
    open spec fn hash_spec(&self) -> usize {
        djb2(vstd::utf8::encode_utf8(self@))
    }

    /// Owned strings are equal as keys exactly when their characters are.
    open spec fn key_eq_spec(&self, other: &Self) -> bool {
        self@ == other@
    }

    fn hash(&self) -> (h: usize)
        ensures
            h == self.hash_spec(),
    {
        let bytes: &[u8] = self.as_str().as_bytes();
        djb2_of_bytes(bytes)
    }

    fn key_eq(&self, other: &Self) -> (r: bool)
        ensures
            r == self.key_eq_spec(other),
    {
        *self == *other
    }
}

impl Hashable for &str {
    /// A borrowed string hashes as the djb2 hash of its UTF-8 bytes.
    open spec fn hash_spec(&self) -> usize {
        djb2(vstd::utf8::encode_utf8(self@))
    }

    /// Borrowed strings are equal as keys exactly when their characters
    /// are.
    open spec fn key_eq_spec(&self, other: &Self) -> bool {
        self@ == other@
    }

    fn hash(&self) -> (h: usize)
        ensures
            h == self.hash_spec(),
    {
        let bytes: &[u8] = self.as_bytes();
        djb2_of_bytes(bytes)
    }

    fn key_eq(&self, other: &Self) -> (r: bool)
        ensures
            r == self.key_eq_spec(other),
    {
        str_eq(*self, *other)
    }
}

/// Compares two strings byte by byte.  Equal byte sequences decode to
/// equal character sequences (UTF-8 encoding loses nothing), so the result
/// is exactly character-sequence equality.
fn str_eq(a: &str, b: &str) -> (r: bool)
    ensures
        r == (a@ == b@),
{
    let ab: &[u8] = a.as_bytes();
    let bb: &[u8] = b.as_bytes();
    if ab.len() != bb.len() {
        return false;
    }
    let mut i: usize = 0;
    while i < ab.len()
        invariant
            ab@ == a.spec_bytes(),
            bb@ == b.spec_bytes(),
            ab@.len() == bb@.len(),
            i <= ab@.len(),
            forall|k: int| 0 <= k < i ==> ab@[k] == bb@[k],
        decreases ab@.len() - i,
    {
        if ab[i] != bb[i] {
            return false;
        }
        i = i + 1;
    }
    proof {
        assert(ab@ =~= bb@);
        vstd::utf8::encode_utf8_decode_utf8(a@);
        vstd::utf8::encode_utf8_decode_utf8(b@);
    }
    true
}

/// Folds `djb2_step` over the bytes of a slice, left to right.
fn djb2_of_bytes(bytes: &[u8]) -> (h: usize)
    ensures
        h == djb2(bytes@),
{
    let mut h: usize = 5381;
    let mut i: usize = 0;
    while i < bytes.len()
        invariant
            i <= bytes@.len(),
            h == djb2(bytes@.take(i as int)),
        decreases bytes@.len() - i,
    {
        proof {
            assert(bytes@.take(i as int + 1).drop_last() =~= bytes@.take(i as int));
            assert(bytes@.take(i as int + 1).last() == bytes@[i as int]);
        }
        h = h.wrapping_mul(33).wrapping_add(bytes[i] as usize);
        i = i + 1;
    }
    proof {
        assert(bytes@.take(i as int) =~= bytes@);
    }
    h
}

} // verus!
