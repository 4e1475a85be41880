//! Keccak-256 hashing and the canonical pair hash of two 32-byte nodes.

use vstd::prelude::*;
use tiny_keccak::{Hasher, Keccak};

verus! {

/// The Keccak-256 digest of a byte string.
pub uninterp spec fn keccak_of(data: Seq<u8>) -> Seq<u8>;

/// Hashes `bytes` with Keccak-256.
///
/// Relies on tiny_keccak's `Keccak::v256`, `Hasher::update` and
/// `Hasher::finalize`: the digest depends on the input bytes alone.
#[verifier::external_body]
pub fn keccak256(bytes: &[u8]) -> (r: [u8; 32])
    ensures
        r@ == keccak_of(bytes@),
{
    let mut output = [0u8; 32];
    let mut hasher = Keccak::v256();
    hasher.update(bytes);
    hasher.finalize(&mut output);
    output
}

/// Byte-lexicographic order on byte strings of equal length: `a` comes before
/// `b` when they first differ at a position where `a` holds the smaller byte.
pub open spec fn lex_lt(a: Seq<u8>, b: Seq<u8>) -> bool {
    exists|i: int|
        0 <= i < a.len() && i < b.len() && a[i] < b[i] && (forall|j: int|
            0 <= j < i ==> a[j] == b[j])
}

/// The canonical hash of two nodes: the smaller one (byte-lexicographically)
/// comes first in the hashed concatenation.
pub open spec fn pair_hash(a: Seq<u8>, b: Seq<u8>) -> Seq<u8> {
    if lex_lt(a, b) {
        keccak_of(a + b)
    } else {
        keccak_of(b + a)
    }
}

/// Two distinct strings of equal length are ordered one way or the other.
proof fn lemma_lex_total(a: Seq<u8>, b: Seq<u8>)
    requires
        a.len() == b.len(),
        a != b,
    ensures
        lex_lt(a, b) || lex_lt(b, a),
{
    if forall|i: int| 0 <= i < a.len() ==> a[i] == b[i] {
        assert(a =~= b);
    }
    let k = choose|i: int| 0 <= i < a.len() && a[i] != b[i];
    lemma_first_difference(a, b, k);
}

/// From any position where two strings differ, the first such position exists.
proof fn lemma_first_difference(a: Seq<u8>, b: Seq<u8>, k: int)
    requires
        a.len() == b.len(),
        0 <= k < a.len(),
        a[k] != b[k],
    ensures
        lex_lt(a, b) || lex_lt(b, a),
    decreases k,
{
    if forall|j: int| 0 <= j < k ==> a[j] == b[j] {
        if a[k] < b[k] {
            assert(lex_lt(a, b));
        } else {
            assert(lex_lt(b, a));
        }
    } else {
        let k2 = choose|j: int| 0 <= j < k && a[j] != b[j];
        lemma_first_difference(a, b, k2);
    }
}

/// The order is asymmetric.
proof fn lemma_lex_asymmetric(a: Seq<u8>, b: Seq<u8>)
    requires
        lex_lt(a, b),
    ensures
        !lex_lt(b, a),
{
    let i = choose|i: int|
        0 <= i < a.len() && i < b.len() && a[i] < b[i] && (forall|j: int|
            0 <= j < i ==> a[j] == b[j]);
    if lex_lt(b, a) {
        let k = choose|k: int|
            0 <= k < b.len() && k < a.len() && b[k] < a[k] && (forall|j: int|
                0 <= j < k ==> b[j] == a[j]);
        if k < i {
            assert(a[k] == b[k]);
        } else if i < k {
            assert(b[i] == a[i]);
        }
    }
}

/// The pair hash does not depend on the order of its two arguments.
pub proof fn lemma_pair_hash_symmetric(a: Seq<u8>, b: Seq<u8>)
    requires
        a.len() == b.len(),
    ensures
        pair_hash(a, b) == pair_hash(b, a),
{
    if a != b {
        lemma_lex_total(a, b);
        if lex_lt(a, b) {
            lemma_lex_asymmetric(a, b);
        } else {
            lemma_lex_asymmetric(b, a);
        }
    }
}

/// Whether `a` comes strictly before `b` in byte-lexicographic order.
pub fn bytes_lt(a: &[u8; 32], b: &[u8; 32]) -> (r: bool)
    ensures
        r == lex_lt(a@, b@),
{
    let mut i: usize = 0;
    while i < 32
        invariant
            a@.len() == 32,
            b@.len() == 32,
            0 <= i <= 32,
            forall|j: int| 0 <= j < i ==> a@[j] == b@[j],
        decreases 32 - i,
    {
        if a[i] < b[i] {
            assert(lex_lt(a@, b@));
            return true;
        }
        if a[i] > b[i] {
            proof {
                assert(lex_lt(b@, a@));
                lemma_lex_asymmetric(b@, a@);
            }
            return false;
        }
        i = i + 1;
    }
    proof {
        assert(a@ =~= b@);
        if lex_lt(a@, b@) {
            let k = choose|k: int|
                0 <= k < a@.len() && k < b@.len() && a@[k] < b@[k] && (forall|j: int|
                    0 <= j < k ==> a@[j] == b@[j]);
            assert(a@[k] == b@[k]);
        }
    }
    false
}

/// Whether two 32-byte values are equal.
pub fn bytes_eq(a: &[u8; 32], b: &[u8; 32]) -> (r: bool)
    ensures
        r == (a@ == b@),
{
    let mut i: usize = 0;
    while i < 32
        invariant
            a@.len() == 32,
            b@.len() == 32,
            0 <= i <= 32,
            forall|j: int| 0 <= j < i ==> a@[j] == b@[j],
        decreases 32 - i,
    {
        if a[i] != b[i] {
            return false;
        }
        i = i + 1;
    }
    assert(a@ =~= b@);
    true
}

/// Hashes two nodes in canonical order: the byte-lexicographically smaller one
/// first, then the other, 64 bytes in all.
pub fn hash_pair(left: &[u8; 32], right: &[u8; 32]) -> (r: [u8; 32])
    ensures
        r@ == pair_hash(left@, right@),
{
    let (first, second) = if bytes_lt(left, right) {
        (left, right)
    } else {
        (right, left)
    };
    let mut combined: Vec<u8> = Vec::with_capacity(64);
    let mut i: usize = 0;
    while i < 32
        invariant
            first@.len() == 32,
            0 <= i <= 32,
            combined@ =~= first@.subrange(0, i as int),
        decreases 32 - i,
    {
        combined.push(first[i]);
        i = i + 1;
    }
    let mut k: usize = 0;
    while k < 32
        invariant
            first@.len() == 32,
            second@.len() == 32,
            0 <= k <= 32,
            combined@ =~= first@ + second@.subrange(0, k as int),
        decreases 32 - k,
    {
        combined.push(second[k]);
        k = k + 1;
    }
    assert(second@.subrange(0, 32) =~= second@);
    assert(combined@ == first@ + second@);
    keccak256(combined.as_slice())
}

} // verus!
