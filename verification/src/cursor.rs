use vstd::prelude::*;

use crate::primitives::FixedWidth;

verus! {

/// A position inside a byte source or destination, read and moved by the
/// stream operations.
///
/// A cursor does no bounds checking of its own: bounds are enforced by
/// whatever reader or writer the cursor is paired with.
pub trait Cursor {
    /// The current position.
    spec fn position(&self) -> usize;

    fn get_index(&self) -> (r: usize)
        ensures
            r == self.position(),
    ;

    fn set_index(&mut self, index: usize)
        ensures
            final(self).position() == index,
    ;

    /// Increments the position by the given amount.
    fn increment_by(&mut self, count: usize)
        requires
            old(self).position() + count <= usize::MAX,
        ensures
            final(self).position() == old(self).position() + count,
    {
        let index = self.get_index();
        self.set_index(index + count);
    }

    /// Returns the current position and advances it by the provided size.
    fn swap_incremented_index(&mut self, size: usize) -> (r: usize)
        requires
            old(self).position() + size <= usize::MAX,
        ensures
            r == old(self).position(),
            final(self).position() == old(self).position() + size,
    {
        let index = self.get_index();
        self.increment_by(size);
        index
    }

    /// Returns the current position and advances it by the width of the
    /// provided type.
    fn swap_incremented_index_for_type<T: FixedWidth>(&mut self) -> (r: usize)
        requires
            old(self).position() + T::width() <= usize::MAX,
        ensures
            r == old(self).position(),
            final(self).position() == old(self).position() + T::width(),
    {
        let size = T::fixed_size();
        self.swap_incremented_index(size)
    }
}

} // verus!
