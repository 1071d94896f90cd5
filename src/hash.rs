//! Fixed-width digests and the merge primitive of the tree engine.

use vstd::prelude::*;

verus! {

/// A 32-byte value, used both as a key and as a digest.
pub type H256 = [u8; 32];

/// The personalisation of the engine's BLAKE2b instance: the ASCII bytes of
/// `sparsemerkletree`.
pub const PERSONALIZATION: [u8; 16] = [
    115, 112, 97, 114, 115, 101, 109, 101, 114, 107, 108, 101, 116, 114, 101, 101,
];

/// BLAKE2b with a 32-byte digest under the personalisation `personal`, of `data`.
pub uninterp spec fn blake2b_256_of(personal: Seq<u8>, data: Seq<u8>) -> Seq<u8>;

/// Relies on blake2b_simd::Params::hash: the 32-byte BLAKE2b digest of `data` under
/// the personalisation `personal`, a function of the two byte strings alone.
/// `Params::personal` panics on more than 16 bytes.
#[verifier::external_body]
fn blake2b_256(personal: &[u8], data: &[u8]) -> (r: H256)
    requires
        personal@.len() <= 16,
    ensures
        r@ == blake2b_256_of(personal@, data@),
{
    let digest = blake2b_simd::Params::new().hash_length(32).personal(personal).hash(data);
    let mut out = [0u8; 32];
    out.copy_from_slice(digest.as_bytes());
    out
}

/// The parent digest of the children `lhs` and `rhs`, in that order.
pub open spec fn merge_spec(lhs: Seq<u8>, rhs: Seq<u8>) -> Seq<u8> {
    blake2b_256_of(PERSONALIZATION@, lhs + rhs)
}

/// Combines two child digests into their parent digest.
pub fn merge(lhs: &H256, rhs: &H256) -> (r: H256)
    ensures
        r@ == merge_spec(lhs@, rhs@),
{
    let mut data: Vec<u8> = Vec::with_capacity(64);
    let mut i: usize = 0;
    while i < 32
        invariant
            i <= 32,
            data@ == lhs@.take(i as int),
        decreases 32 - i,
    {
        data.push(lhs[i]);
        proof {
            assert(lhs@.take(i as int + 1) =~= lhs@.take(i as int).push(lhs@[i as int]));
        }
        i = i + 1;
    }
    let mut j: usize = 0;
    while j < 32
        invariant
            j <= 32,
            data@ == lhs@ + rhs@.take(j as int),
        decreases 32 - j,
    {
        data.push(rhs[j]);
        proof {
            assert(rhs@.take(j as int + 1) =~= rhs@.take(j as int).push(rhs@[j as int]));
            assert(lhs@ + rhs@.take(j as int + 1) =~= (lhs@ + rhs@.take(j as int)).push(
                rhs@[j as int],
            ));
        }
        j = j + 1;
    }
    proof {
        assert(lhs@.take(32) =~= lhs@);
        assert(rhs@.take(32) =~= rhs@);
    }
    let personal = PERSONALIZATION;
    blake2b_256(personal.as_slice(), data.as_slice())
}

/// The bytes of `h` as a vector.
pub fn h256_to_vec(h: &H256) -> (r: Vec<u8>)
    ensures
        r@ == h@,
{
    let mut out: Vec<u8> = Vec::with_capacity(32);
    let mut i: usize = 0;
    while i < 32
        invariant
            i <= 32,
            out@ == h@.take(i as int),
        decreases 32 - i,
    {
        out.push(h[i]);
        proof {
            assert(h@.take(i as int + 1) =~= h@.take(i as int).push(h@[i as int]));
        }
        i = i + 1;
    }
    assert(h@.take(32) =~= h@);
    out
}

/// Whether two digests hold the same bytes.
pub fn h256_eq(a: &H256, b: &H256) -> (r: bool)
    ensures
        r == (a@ == b@),
{
    let mut i: usize = 0;
    while i < 32
        invariant
            i <= 32,
            forall|k: int| 0 <= k < i ==> a@[k] == b@[k],
        decreases 32 - i,
    {
        if a[i] != b[i] {
            return false;
        }
        i = i + 1;
    }
    assert(a@ =~= b@);
    true
}

} // verus!
