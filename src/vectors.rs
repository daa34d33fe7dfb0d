//! A three-dimensional vector with componentwise arithmetic.

use vstd::prelude::*;

use core::ops::{Add, Div, Mul, Neg, Sub};
use vstd::std_specs::ops::{
    AddSpec,
    AddSpecImpl,
    DivSpec,
    DivSpecImpl,
    MulSpec,
    MulSpecImpl,
    NegSpec,
    NegSpecImpl,
    SubSpec,
    SubSpecImpl,
};

verus! {

/// A vector with components `x`, `y` and `z` of one numeric type.
#[derive(Debug, PartialEq)]
pub struct Vec3<T> {
    /// First component.
    pub x: T,
    /// Second component.
    pub y: T,
    /// Third component.
    pub z: T,
}

impl<T: Copy + Add<Output = T> + Mul<Output = T>> Vec3<T> {
    /// The products and sums that [`Vec3::norm`] computes do not overflow.
    pub open spec fn norm_req(&self) -> bool {
        &&& self.x.mul_req(self.x)
        &&& self.y.mul_req(self.y)
        &&& self.z.mul_req(self.z)
        &&& self.x.mul_spec(self.x).add_req(self.y.mul_spec(self.y))
        &&& self.x.mul_spec(self.x).add_spec(self.y.mul_spec(self.y)).add_req(
            self.z.mul_spec(self.z),
        )
    }

    /// The squared length `x * x + y * y + z * z`.
    pub open spec fn norm_spec(&self) -> T {
        self.x.mul_spec(self.x).add_spec(self.y.mul_spec(self.y)).add_spec(self.z.mul_spec(self.z))
    }

    /// The squared length of the vector: `x * x + y * y + z * z`.
    pub fn norm(&self) -> (n: T)
        requires
            T::obeys_mul_spec(),
            T::obeys_add_spec(),
            self.norm_req(),
        ensures
            n == self.norm_spec(),
    {
        self.x * self.x + self.y * self.y + self.z * self.z
    }
}

impl<T: Add<Output = T>> AddSpecImpl for Vec3<T> {
    open spec fn obeys_add_spec() -> bool {
        T::obeys_add_spec()
    }

    open spec fn add_req(self, rhs: Vec3<T>) -> bool {
        &&& self.x.add_req(rhs.x)
        &&& self.y.add_req(rhs.y)
        &&& self.z.add_req(rhs.z)
    }

    open spec fn add_spec(self, rhs: Vec3<T>) -> Vec3<T> {
        Vec3 { x: self.x.add_spec(rhs.x), y: self.y.add_spec(rhs.y), z: self.z.add_spec(rhs.z) }
    }
}

impl<T: Add<Output = T>> Add for Vec3<T> {
    type Output = Vec3<T>;

    /// Componentwise sum.
    fn add(self, rhs: Vec3<T>) -> (v: Vec3<T>) {
        Vec3 { x: self.x + rhs.x, y: self.y + rhs.y, z: self.z + rhs.z }
    }
}

impl<T: Sub<Output = T>> SubSpecImpl for Vec3<T> {
    open spec fn obeys_sub_spec() -> bool {
        T::obeys_sub_spec()
    }

    open spec fn sub_req(self, rhs: Vec3<T>) -> bool {
        &&& self.x.sub_req(rhs.x)
        &&& self.y.sub_req(rhs.y)
        &&& self.z.sub_req(rhs.z)
    }

    open spec fn sub_spec(self, rhs: Vec3<T>) -> Vec3<T> {
        Vec3 { x: self.x.sub_spec(rhs.x), y: self.y.sub_spec(rhs.y), z: self.z.sub_spec(rhs.z) }
    }
}

impl<T: Sub<Output = T>> Sub for Vec3<T> {
    type Output = Vec3<T>;

    /// Componentwise difference.
    fn sub(self, rhs: Vec3<T>) -> (v: Vec3<T>) {
        Vec3 { x: self.x - rhs.x, y: self.y - rhs.y, z: self.z - rhs.z }
    }
}

impl<T: Neg<Output = T>> NegSpecImpl for Vec3<T> {
    open spec fn obeys_neg_spec() -> bool {
        T::obeys_neg_spec()
    }

    open spec fn neg_req(self) -> bool {
        &&& self.x.neg_req()
        &&& self.y.neg_req()
        &&& self.z.neg_req()
    }

    open spec fn neg_spec(self) -> Vec3<T> {
        Vec3 { x: self.x.neg_spec(), y: self.y.neg_spec(), z: self.z.neg_spec() }
    }
}

impl<T: Neg<Output = T>> Neg for Vec3<T> {
    type Output = Vec3<T>;

    /// Every component negated.
    fn neg(self) -> (v: Vec3<T>) {
        Vec3 { x: self.x.neg(), y: self.y.neg(), z: self.z.neg() }
    }
}

impl<T: Copy + Mul<Output = T>> MulSpecImpl<T> for Vec3<T> {
    open spec fn obeys_mul_spec() -> bool {
        T::obeys_mul_spec()
    }

    open spec fn mul_req(self, k: T) -> bool {
        &&& self.x.mul_req(k)
        &&& self.y.mul_req(k)
        &&& self.z.mul_req(k)
    }

    open spec fn mul_spec(self, k: T) -> Vec3<T> {
        Vec3 { x: self.x.mul_spec(k), y: self.y.mul_spec(k), z: self.z.mul_spec(k) }
    }
}

impl<T: Copy + Mul<Output = T>> Mul<T> for Vec3<T> {
    type Output = Vec3<T>;

    /// Every component multiplied by the scalar `k`.
    fn mul(self, k: T) -> (v: Vec3<T>) {
        Vec3 { x: self.x * k, y: self.y * k, z: self.z * k }
    }
}

impl<T: Copy + Div<Output = T>> DivSpecImpl<T> for Vec3<T> {
    open spec fn obeys_div_spec() -> bool {
        T::obeys_div_spec()
    }

    open spec fn div_req(self, k: T) -> bool {
        &&& self.x.div_req(k)
        &&& self.y.div_req(k)
        &&& self.z.div_req(k)
    }

    open spec fn div_spec(self, k: T) -> Vec3<T> {
        Vec3 { x: self.x.div_spec(k), y: self.y.div_spec(k), z: self.z.div_spec(k) }
    }
}

impl<T: Copy + Div<Output = T>> Div<T> for Vec3<T> {
    type Output = Vec3<T>;

    /// Every component divided by the scalar `k`.
    fn div(self, k: T) -> (v: Vec3<T>) {
        Vec3 { x: self.x / k, y: self.y / k, z: self.z / k }
    }
}

} // verus!
