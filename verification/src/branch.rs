//! Root-to-leaf paths produced by the walkers.

use vstd::prelude::*;

verus! {

/// A path from the root to one target leaf element, together with a
/// reference to that element.
///
/// `path` holds one slot index per level, root first; its last entry is
/// the element's slot within its leaf. All branches into the same tree
/// have the same length, a consequence of the uniform leaf depth.
pub struct Branch<'a, T> {
    /// One child index per level, root first.
    pub path: Vec<usize>,
    /// The element the path leads to.
    pub leaf: &'a T,
}

impl<'a, T> Branch<'a, T> {
    /// The number of levels the path crosses, leaf included.
    pub fn depth(&self) -> (d: usize)
        ensures
            d == self.path@.len(),
    {
        self.path.len()
    }

    /// The element the branch points at.
    pub fn leaf(&self) -> (t: &'a T)
        ensures
            t == self.leaf,
    {
        self.leaf
    }
}

} // verus!
