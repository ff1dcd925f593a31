//! The 64-bit digest of a schema signature.
//!
//! Every stored record begins with the hash of its type's signature, so
//! the digest must be a pure function of the signature text: the same
//! layout always produces the same hash, on every machine and in every
//! process. The digest used here is a multiplicative fold over the
//! signature's characters, kept free of bitwise operations so that
//! concrete hash values stay within reach of arithmetic reasoning.

use vstd::prelude::*;
use vstd::string::StrSliceExecFns;

verus! {

/// The starting value of the digest fold.
pub const DIGEST_BASIS: u64 = 0xcbf29ce484222325;

/// The multiplier of the digest fold.
pub const DIGEST_MULT: u64 = 0x100000001b3;

/// One step of the digest fold: mix one character's code point into the
/// running hash.
pub open spec fn digest_step(h: u64, c: char) -> u64 {
    vstd::wrapping::u64_specs::wrapping_add(
        vstd::wrapping::u64_specs::wrapping_mul(h, DIGEST_MULT),
        (c as u32) as u64,
    )
}

/// The schema hash of a signature: the fold of [`digest_step`] over its
/// characters in order, starting from [`DIGEST_BASIS`].
pub open spec fn sig_hash(sig: Seq<char>) -> u64
    decreases sig.len(),
{
    if sig.len() == 0 {
        DIGEST_BASIS
    } else {
        digest_step(sig_hash(sig.drop_last()), sig.last())
    }
}

/// Computes the schema hash of a signature.
pub fn hash_signature(sig: &str) -> (r: u64)
    ensures
        r == sig_hash(sig@),
{
    let n = sig.unicode_len();
    let mut h: u64 = DIGEST_BASIS;
    let mut i: usize = 0;
    while i < n
        invariant
            n == sig@.len(),
            i <= n,
            h == sig_hash(sig@.take(i as int)),
        decreases n - i,
    {
        let c = sig.get_char(i);
        proof {
            assert(sig@.take(i + 1).drop_last() =~= sig@.take(i as int));
            assert(sig@.take(i + 1).last() == sig@[i as int]);
        }
        h = h.wrapping_mul(DIGEST_MULT).wrapping_add((c as u32) as u64);
        i = i + 1;
    }
    proof {
        assert(sig@.take(n as int) =~= sig@);
    }
    h
}

/// Appending one character folds one more step onto the hash.
pub proof fn lemma_sig_hash_snoc(s: Seq<char>, c: char)
    ensures
        sig_hash(s.push(c)) == digest_step(sig_hash(s), c),
{
    assert(s.push(c).drop_last() =~= s);
    assert(s.push(c).last() == c);
}

/// The schema hash is deterministic: it depends on the signature text
/// alone, so record layouts with equal signatures share their hash.
pub proof fn lemma_sig_hash_deterministic(a: Seq<char>, b: Seq<char>)
    requires
        a == b,
    ensures
        sig_hash(a) == sig_hash(b),
{
}

} // verus!
