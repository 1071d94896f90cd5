//! The compact proof carrier: a bitmap of the heights that contribute a sibling, and
//! those siblings in the order in which they are consumed.

use crate::hash::H256;
use vstd::prelude::*;

verus! {

/// Bit `h` of `bits`: bit `h % 8`, least significant first, of byte `h / 8`.
pub open spec fn height_bit(bits: Seq<u8>, h: int) -> bool {
    (bits[h / 8] >> ((h % 8) as u8)) & 1u8 == 1u8
}

/// Bit `h` of `bits`, as `height_bit` reads it.
pub fn get_bit(bits: &H256, h: u8) -> (r: bool)
    ensures
        r == height_bit(bits@, h as int),
{
    let byte = bits[(h / 8) as usize];
    (byte >> (h % 8)) & 1 == 1
}

/// Whether the path of `key` takes the right branch at `height`.
pub open spec fn is_right(key: Seq<u8>, height: int) -> bool {
    height_bit(key, height)
}

/// A compact membership proof.
pub struct MerkleProof {
    /// Bit `h` is set where height `h` contributes a sibling.
    pub merge_heights: H256,
    /// The contributed siblings, in the order in which they are consumed.
    pub siblings: Vec<H256>,
}

impl MerkleProof {
    pub fn new(merge_heights: H256, siblings: Vec<H256>) -> (r: MerkleProof)
        ensures
            r.merge_heights == merge_heights,
            r.siblings == siblings,
    {
        MerkleProof { merge_heights, siblings }
    }
}

} // verus!
