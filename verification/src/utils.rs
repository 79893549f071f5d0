//! A two-dimensional vector indexed by grid locations.

use vstd::prelude::*;

use crate::point::Loc;

verus! {

/// Rows of values, indexed by a `Loc` as `rows[loc.y][loc.x]`.
pub struct UVecVec<T>(pub Vec<Vec<T>>);

impl<T> UVecVec<T> {
    /// The value at `loc`.
    pub fn get(&self, loc: Loc) -> (r: &T)
        requires
            loc.y < self.0@.len(),
            loc.x < self.0@[loc.y as int]@.len(),
        ensures
            *r == self.0@[loc.y as int]@[loc.x as int],
    {
        &self.0[loc.y][loc.x]
    }

    /// Replaces the value at `loc`.
    pub fn set(&mut self, loc: Loc, v: T)
        requires
            loc.y < old(self).0@.len(),
            loc.x < old(self).0@[loc.y as int]@.len(),
        ensures
            final(self).0@.len() == old(self).0@.len(),
            final(self).0@[loc.y as int]@ == old(self).0@[loc.y as int]@.update(loc.x as int, v),
            forall|r: int|
                0 <= r < old(self).0@.len() && r != loc.y ==> #[trigger] final(self).0@[r] == old(
                    self,
                ).0@[r],
    {
        let ghost pre = self.0@;
        let row = &mut self.0[loc.y];
        row.set(loc.x, v);
        proof {
            assert forall|r: int|
                0 <= r < pre.len() && r != loc.y implies #[trigger] self.0@[r] == pre[r] by {}
        }
    }
}

} // verus!
