//! Comparing and hashing text by its bytes.

use vstd::prelude::*;
use vstd::utf8::{encode_utf8, encode_utf8_decode_utf8};

verus! {

/// Whether two strings hold the same characters.
pub fn same_text(a: &str, b: &str) -> (same: bool)
    ensures
        same == (a@ == b@),
{
    let x: &[u8] = a.as_bytes();
    let y: &[u8] = b.as_bytes();
    proof {
        encode_utf8_decode_utf8(a@);
        encode_utf8_decode_utf8(b@);
    }
    if x.len() != y.len() {
        return false;
    }
    let mut i: usize = 0;
    while i < x.len()
        invariant
            i <= x.len(),
            x.len() == y.len(),
            x@ == encode_utf8(a@),
            y@ == encode_utf8(b@),
            forall|j: int| 0 <= j < i ==> x@[j] == y@[j],
        decreases x.len() - i,
    {
        if x[i] != y[i] {
            return false;
        }
        i = i + 1;
    }
    assert(x@ =~= y@);
    true
}

/// The value that hashing starts from.
pub const HASH_SEED: u64 = 0xcbf2_9ce4_8422_2325;

/// The factor by which the hash is multiplied after each byte.
pub const HASH_FACTOR: u64 = 0x0000_0100_0000_01b3;

/// The hash after one more byte.
pub open spec fn hash_step(h: u64, byte: u8) -> u64 {
    (h ^ (byte as u64)).wrapping_mul(HASH_FACTOR)
}

/// The 64-bit FNV-1a hash of a sequence of bytes.
pub open spec fn hash_bytes(bytes: Seq<u8>) -> u64
    decreases bytes.len(),
{
    if bytes.len() == 0 {
        HASH_SEED
    } else {
        hash_step(hash_bytes(bytes.drop_last()), bytes.last())
    }
}

/// The hash of a text: that of its UTF-8 bytes.
pub open spec fn hash_text(text: Seq<char>) -> u64 {
    hash_bytes(encode_utf8(text))
}

/// The 64-bit FNV-1a hash of the UTF-8 bytes of `text`.
pub fn hash_of(text: &str) -> (h: u64)
    ensures
        h == hash_text(text@),
{
    let bytes: &[u8] = text.as_bytes();
    let mut h: u64 = HASH_SEED;
    let mut i: usize = 0;
    while i < bytes.len()
        invariant
            i <= bytes.len(),
            h == hash_bytes(bytes@.take(i as int)),
        decreases bytes.len() - i,
    {
        proof {
            assert(bytes@.take(i + 1).drop_last() =~= bytes@.take(i as int));
        }
        h = (h ^ (bytes[i] as u64)).wrapping_mul(HASH_FACTOR);
        i = i + 1;
    }
    proof {
        assert(bytes@.take(bytes@.len() as int) =~= bytes@);
    }
    h
}

} // verus!
