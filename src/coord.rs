use vstd::prelude::*;

verus! {

/// A square, or a displacement between squares, as (file, rank).
#[derive(Clone, Copy, Debug, PartialEq, Eq, Structural, Hash)]
pub struct Coord(pub i8, pub i8);

impl Coord {
    /// Component-wise sum.
    pub fn add(self, rhs: Coord) -> (r: Coord)
        requires
            i8::MIN <= self.0 + rhs.0 <= i8::MAX,
            i8::MIN <= self.1 + rhs.1 <= i8::MAX,
        ensures
            r.0 == self.0 + rhs.0,
            r.1 == self.1 + rhs.1,
    {
        Coord(self.0 + rhs.0, self.1 + rhs.1)
    }

    /// Adds `rhs` to `self` in place.
    pub fn add_assign(&mut self, rhs: Coord)
        requires
            i8::MIN <= old(self).0 + rhs.0 <= i8::MAX,
            i8::MIN <= old(self).1 + rhs.1 <= i8::MAX,
        ensures
            final(self).0 == old(self).0 + rhs.0,
            final(self).1 == old(self).1 + rhs.1,
    {
        *self = Coord(self.0 + rhs.0, self.1 + rhs.1);
    }

    /// Subtracts `rhs` from `self` in place.
    pub fn sub_assign(&mut self, rhs: Coord)
        requires
            i8::MIN <= old(self).0 - rhs.0 <= i8::MAX,
            i8::MIN <= old(self).1 - rhs.1 <= i8::MAX,
        ensures
            final(self).0 == old(self).0 - rhs.0,
            final(self).1 == old(self).1 - rhs.1,
    {
        *self = Coord(self.0 - rhs.0, self.1 - rhs.1);
    }
}

} // verus!
