//! Points with three integer coordinates.

use vstd::prelude::*;

verus! {

/// A point in space; its coordinates have the indices 0, 1 and 2.
#[derive(Debug, Copy, Clone, PartialEq, Eq, Structural)]
pub struct Vec3 {
    pub x: i32,
    pub y: i32,
    pub z: i32,
}

impl Vec3 {
    /// The coordinate with index `i`.
    pub open spec fn at(self, i: int) -> int {
        if i == 0 {
            self.x as int
        } else if i == 1 {
            self.y as int
        } else {
            self.z as int
        }
    }

    /// Sets the coordinate with index `i` to `value`.
    pub fn set(&mut self, i: usize, value: i32)
        requires
            i < 3,
        ensures
            final(self).at(i as int) == value,
            forall|j: int| 0 <= j < 3 && j != i ==> final(self).at(j) == old(self).at(j),
    {
        if i == 0 {
            self.x = value;
        } else if i == 1 {
            self.y = value;
        } else {
            self.z = value;
        }
    }
}

impl std::ops::Index<usize> for Vec3 {
    type Output = i32;

    /// The coordinate with index `i`.
    fn index(&self, i: usize) -> (r: &i32)
        ensures
            *r == self.at(i as int),
    {
        if i == 0 {
            &self.x
        } else if i == 1 {
            &self.y
        } else {
            &self.z
        }
    }
}

impl vstd::std_specs::core::IndexSpecImpl<usize> for Vec3 {
    /// A point has the coordinates 0, 1 and 2.
    open spec fn index_req(&self, index: &usize) -> bool {
        *index < 3
    }
}

/// Two points with the same three coordinates are the same point.
pub proof fn lemma_same_point(a: Vec3, b: Vec3)
    requires
        forall|i: int| 0 <= i < 3 ==> a.at(i) == b.at(i),
    ensures
        a == b,
{
    assert(a.at(0) == b.at(0));
    assert(a.at(1) == b.at(1));
    assert(a.at(2) == b.at(2));
}

} // verus!
