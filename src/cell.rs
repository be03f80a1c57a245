use vstd::prelude::*;

verus! {

/// Storage for the part of a stat that maintenance rewrites.
///
/// Access goes through [`borrow_cell`], which hands out the contents for
/// in-place updates while the owner is borrowed exclusively.
pub struct InteriorCell<T> {
    contents: T,
}

impl<T> InteriorCell<T> {
    /// What the cell holds.
    pub closed spec fn contents(&self) -> T {
        self.contents
    }

    /// Shared access to the contents.
    pub fn get(&self) -> (r: &T)
        ensures
            *r == self.contents(),
    {
        &self.contents
    }
}

/// Creates a cell holding `value`.
pub fn new_interior_cell<T>(value: T) -> (r: InteriorCell<T>)
    ensures
        r.contents() == value,
{
    InteriorCell { contents: value }
}

/// Exclusive access to the contents of `cell`; what is written through the
/// returned reference is what the cell holds afterwards.
pub fn borrow_cell<T>(cell: &mut InteriorCell<T>) -> (r: &mut T)
    ensures
        *r == old(cell).contents(),
        final(cell).contents() == *final(r),
{
    &mut cell.contents
}

} // verus!
