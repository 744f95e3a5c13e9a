//! Removal of the last element of a vector, whether or not it has one.

use vstd::prelude::*;

verus! {

/// Collections that can give up their last element.
pub trait LastRemovable {
    /// Removes the last element; does nothing where there is none.
    fn remove_last(&mut self);
}

impl<T> LastRemovable for Vec<T> {
    fn remove_last(&mut self)
        ensures
            old(self)@.len() == 0 ==> final(self)@ == old(self)@,
            old(self)@.len() > 0 ==> final(self)@ == old(self)@.drop_last(),
    {
        if self.is_empty() {
            return ;
        }
        self.remove(self.len() - 1);
    }
}

} // verus!
