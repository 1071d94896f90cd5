//! The SHA-256 hasher of the proof export.

use crate::hash::H256;
use sha2::Digest;
use vstd::prelude::*;

verus! {

/// The SHA-256 digest of `data`.
pub uninterp spec fn sha256_of(data: Seq<u8>) -> Seq<u8>;

/// Relies on sha2::Sha256::digest: the 32-byte SHA-256 digest of `data`, a function
/// of the bytes alone.
#[verifier::external_body]
fn sha256(data: &[u8]) -> (r: H256)
    ensures
        r@ == sha256_of(data@),
{
    let digest = sha2::Sha256::digest(data);
    let mut out = [0u8; 32];
    out.copy_from_slice(digest.as_slice());
    out
}

/// Collects bytes, then hashes all of them with SHA-256.
pub struct Sha256Hasher {
    pub written: Vec<u8>,
}

impl Sha256Hasher {
    /// A hasher that has been given no bytes.
    pub fn new() -> (r: Sha256Hasher)
        ensures
            r.written@ == Seq::<u8>::empty(),
    {
        Sha256Hasher { written: Vec::new() }
    }

    /// Adds the 32 bytes of `h`.
    pub fn write_h256(&mut self, h: &H256)
        ensures
            final(self).written@ == old(self).written@ + h@,
    {
        let mut i: usize = 0;
        let ghost start = self.written@;
        while i < 32
            invariant
                i <= 32,
                self.written@ == start + h@.take(i as int),
            decreases 32 - i,
        {
            self.written.push(h[i]);
            proof {
                assert(start + h@.take(i as int + 1) =~= (start + h@.take(i as int)).push(
                    h@[i as int],
                ));
            }
            i = i + 1;
        }
        assert(h@.take(32) =~= h@);
    }

    /// Adds the byte `b`.
    pub fn write_byte(&mut self, b: u8)
        ensures
            final(self).written@ == old(self).written@.push(b),
    {
        self.written.push(b);
    }

    /// The SHA-256 digest of every byte added, in order.
    pub fn finish(self) -> (r: H256)
        ensures
            r@ == sha256_of(self.written@),
    {
        sha256(self.written.as_slice())
    }
}

} // verus!
