//! The bit path of a key: 256 branch decisions, most significant bit first.

use crate::hash::H256;
use vstd::prelude::*;

verus! {

/// The direction taken at one level of the tree.
#[derive(Clone, Copy, PartialEq, Eq, Structural)]
pub enum Branch {
    Left,
    Right,
}

/// Whether the path of `key` goes left at level `i` (0 is the root's level):
/// bit `i` of the key, most significant first, is 1.
pub open spec fn goes_left(key: Seq<u8>, i: int) -> bool {
    (key[i / 8] >> ((7 - i % 8) as u8)) & 1u8 == 1u8
}

/// The branch that the path of `key` takes at level `i`.
pub open spec fn branch_at(key: Seq<u8>, i: int) -> Branch {
    if goes_left(key, i) {
        Branch::Left
    } else {
        Branch::Right
    }
}

/// The branches of a key, from the root's level down.
pub struct PathIter {
    pub path: H256,
    pub pos: usize,
}

impl PathIter {
    /// Starts at the root's level of `path`.
    pub fn from_path(path: &H256) -> (r: PathIter)
        ensures
            r.path == *path,
            r.pos == 0,
    {
        PathIter { path: *path, pos: 0 }
    }

    /// The branch at the current level, then one level down; `None` past the leaves.
    pub fn next(&mut self) -> (r: Option<Branch>)
        requires
            old(self).pos <= 256,
        ensures
            final(self).path == old(self).path,
            old(self).pos < 256 ==> r == Some(branch_at(old(self).path@, old(self).pos as int))
                && final(self).pos == old(self).pos + 1,
            old(self).pos >= 256 ==> r is None && final(self).pos == old(self).pos,
    {
        if self.pos >= 256 {
            return None;
        }
        let byte = self.path[self.pos / 8];
        let shift = (7 - self.pos % 8) as u8;
        let branch = if (byte >> shift) & 1 == 1 {
            Branch::Left
        } else {
            Branch::Right
        };
        self.pos = self.pos + 1;
        Some(branch)
    }
}

} // verus!
