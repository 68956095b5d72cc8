//! Functions on each component of a triple.

use crate::math::IVec3;
use crate::math::UVec3;
use vstd::prelude::*;

verus! {

/// A type of three components.
pub trait Triple<C>: Sized {
    /// The components.
    spec fn parts(self) -> (C, C, C);

    /// The components one after the other.
    fn into_parts(self) -> (r: (C, C, C))
        ensures
            r == self.parts(),
    ;

    /// The value with the given components.
    fn from_parts(x: C, y: C, z: C) -> (r: Self)
        ensures
            r.parts() == (x, y, z),
    ;
}

impl<C: Copy> Triple<C> for [C; 3] {
    open spec fn parts(self) -> (C, C, C) {
        (self@[0], self@[1], self@[2])
    }

    fn into_parts(self) -> (r: (C, C, C)) {
        (self[0], self[1], self[2])
    }

    fn from_parts(x: C, y: C, z: C) -> (r: [C; 3]) {
        [x, y, z]
    }
}

impl Triple<u32> for UVec3 {
    open spec fn parts(self) -> (u32, u32, u32) {
        (self.x, self.y, self.z)
    }

    fn into_parts(self) -> (r: (u32, u32, u32)) {
        (self.x, self.y, self.z)
    }

    fn from_parts(x: u32, y: u32, z: u32) -> (r: UVec3) {
        UVec3 { x, y, z }
    }
}

impl Triple<i32> for IVec3 {
    open spec fn parts(self) -> (i32, i32, i32) {
        (self.x, self.y, self.z)
    }

    fn into_parts(self) -> (r: (i32, i32, i32)) {
        (self.x, self.y, self.z)
    }

    fn from_parts(x: i32, y: i32, z: i32) -> (r: IVec3) {
        IVec3 { x, y, z }
    }
}

/// Apply a function to each component of a type.
pub trait PerComponent<C1, C2, Output: Triple<C2>>: Triple<C1> {
    /// Applies a function to each component of the input.
    fn per_comp<F: Fn(C1) -> C2>(self, f: F) -> (r: Output)
        requires
            call_requires(f, (self.parts().0,)),
            call_requires(f, (self.parts().1,)),
            call_requires(f, (self.parts().2,)),
        ensures
            call_ensures(f, (self.parts().0,), r.parts().0),
            call_ensures(f, (self.parts().1,), r.parts().1),
            call_ensures(f, (self.parts().2,), r.parts().2),
    ;
}

impl<Input: Triple<C1>, C1, C2, Output: Triple<C2>> PerComponent<C1, C2, Output> for Input {
    fn per_comp<F: Fn(C1) -> C2>(self, f: F) -> (r: Output) {
        let (x, y, z): (C1, C1, C1) = self.into_parts();
        Output::from_parts(f(x), f(y), f(z))
    }
}

} // verus!
