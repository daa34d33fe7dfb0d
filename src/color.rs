//! A colour as a triple of channel values.

use vstd::prelude::*;
use core::ops::{Add, Mul, Sub};
use vstd::std_specs::ops::{AddSpec, AddSpecImpl, MulSpec, MulSpecImpl, SubSpec, SubSpecImpl};

verus! {

/// A colour with red, green and blue channels of one numeric type.
///
/// Channels are not constrained: lighting arithmetic may leave them negative or
/// above the top of the scale. Clamping happens only on conversion to 8 bits.
#[derive(Debug, Clone, Copy, PartialEq)]
pub struct Color<T> {
    /// Red
    pub r: T,
    /// Green
    pub g: T,
    /// Blue
    pub b: T,
}

impl<T> Color<T> {
    /// Builds a colour from its three channels.
    pub fn new(r: T, g: T, b: T) -> (c: Self)
        ensures
            c.r == r,
            c.g == g,
            c.b == b,
    {
        Color { r, g, b }
    }

    /// The channels as an array, in the order red, green, blue.
    pub fn as_array(self) -> (a: [T; 3])
        ensures
            a@ == seq![self.r, self.g, self.b],
    {
        [self.r, self.g, self.b]
    }
}

impl<T: Add<Output = T>> AddSpecImpl for Color<T> {
    open spec fn obeys_add_spec() -> bool {
        T::obeys_add_spec()
    }

    open spec fn add_req(self, rhs: Color<T>) -> bool {
        &&& self.r.add_req(rhs.r)
        &&& self.g.add_req(rhs.g)
        &&& self.b.add_req(rhs.b)
    }

    open spec fn add_spec(self, rhs: Color<T>) -> Color<T> {
        Color { r: self.r.add_spec(rhs.r), g: self.g.add_spec(rhs.g), b: self.b.add_spec(rhs.b) }
    }
}

impl<T: Add<Output = T>> Add for Color<T> {
    type Output = Color<T>;

    /// Channel-wise sum.
    fn add(self, rhs: Color<T>) -> (c: Color<T>) {
        Color { r: self.r + rhs.r, g: self.g + rhs.g, b: self.b + rhs.b }
    }
}

impl<T: Sub<Output = T>> SubSpecImpl for Color<T> {
    open spec fn obeys_sub_spec() -> bool {
        T::obeys_sub_spec()
    }

    open spec fn sub_req(self, rhs: Color<T>) -> bool {
        &&& self.r.sub_req(rhs.r)
        &&& self.g.sub_req(rhs.g)
        &&& self.b.sub_req(rhs.b)
    }

    open spec fn sub_spec(self, rhs: Color<T>) -> Color<T> {
        Color { r: self.r.sub_spec(rhs.r), g: self.g.sub_spec(rhs.g), b: self.b.sub_spec(rhs.b) }
    }
}

impl<T: Sub<Output = T>> Sub for Color<T> {
    type Output = Color<T>;

    /// Channel-wise difference.
    fn sub(self, rhs: Color<T>) -> (c: Color<T>) {
        Color { r: self.r - rhs.r, g: self.g - rhs.g, b: self.b - rhs.b }
    }
}

impl<T: Copy + Mul<Output = T>> MulSpecImpl<T> for Color<T> {
    open spec fn obeys_mul_spec() -> bool {
        T::obeys_mul_spec()
    }

    open spec fn mul_req(self, k: T) -> bool {
        &&& self.r.mul_req(k)
        &&& self.g.mul_req(k)
        &&& self.b.mul_req(k)
    }

    open spec fn mul_spec(self, k: T) -> Color<T> {
        Color { r: self.r.mul_spec(k), g: self.g.mul_spec(k), b: self.b.mul_spec(k) }
    }
}

impl<T: Copy + Mul<Output = T>> Mul<T> for Color<T> {
    type Output = Color<T>;

    /// Every channel multiplied by the scalar `k`.
    fn mul(self, k: T) -> (c: Color<T>) {
        Color { r: self.r * k, g: self.g * k, b: self.b * k }
    }
}

impl<T: Copy + Mul<Output = T>> MulSpecImpl<Color<T>> for Color<T> {
    open spec fn obeys_mul_spec() -> bool {
        T::obeys_mul_spec()
    }

    open spec fn mul_req(self, rhs: Color<T>) -> bool {
        &&& self.r.mul_req(rhs.r)
        &&& self.g.mul_req(rhs.g)
        &&& self.b.mul_req(rhs.b)
    }

    open spec fn mul_spec(self, rhs: Color<T>) -> Color<T> {
        Color { r: self.r.mul_spec(rhs.r), g: self.g.mul_spec(rhs.g), b: self.b.mul_spec(rhs.b) }
    }
}

impl<T: Copy + Mul<Output = T>> Mul<Color<T>> for Color<T> {
    type Output = Color<T>;

    /// Channel-wise (Hadamard) product, as used to blend a light with a surface.
    fn mul(self, rhs: Color<T>) -> (c: Color<T>) {
        Color { r: self.r * rhs.r, g: self.g * rhs.g, b: self.b * rhs.b }
    }
}

/// Adding colours does not depend on the order of the operands: whenever `a + b`
/// is defined, so is `b + a`, and the two are equal.
pub proof fn lemma_add_commutative(a: Color<i64>, b: Color<i64>)
    requires
        AddSpec::add_req(a, b),
    ensures
        AddSpec::add_req(b, a),
        AddSpec::add_spec(a, b) == AddSpec::add_spec(b, a),
{
}

/// A colour minus itself is black, and adding it to any colour gives that colour
/// back; neither step can overflow.
pub proof fn lemma_add_self_difference(a: Color<i64>, b: Color<i64>)
    ensures
        SubSpec::sub_req(b, b),
        SubSpec::sub_spec(b, b) == (Color::<i64> { r: 0, g: 0, b: 0 }),
        AddSpec::add_req(a, SubSpec::sub_spec(b, b)),
        AddSpec::add_spec(a, SubSpec::sub_spec(b, b)) == a,
{
}

/// A channel on the 0 to 255 scale saturated into eight bits: negative values give
/// 0 and values above 255 give 255.
pub open spec fn channel_to_u8(v: i64) -> u8 {
    if v < 0 {
        0
    } else if v > 255 {
        255
    } else {
        v as u8
    }
}

/// The 8-bit colour of a colour whose channels are on the 0 to 255 scale.
pub open spec fn rgb8_of(c: Color<i64>) -> Color<u8> {
    Color { r: channel_to_u8(c.r), g: channel_to_u8(c.g), b: channel_to_u8(c.b) }
}

/// Relies on `num::clamp`: `min` when the input is below it, `max` when the input is
/// above it, the input itself otherwise. It asserts `min <= max`.
#[verifier::external_body]
fn clamp(input: i64, min: i64, max: i64) -> (r: i64)
    requires
        min <= max,
    ensures
        r == (if input < min {
            min
        } else if input > max {
            max
        } else {
            input
        }),
{
    num::clamp(input, min, max)
}

impl Color<i64> {
    /// The 8-bit colour of a colour whose channels are already scaled to 0 to 255 and
    /// rounded: each channel is clamped into `0..=255`, never wrapped.
    pub fn as_rgb8(self) -> (c: Color<u8>)
        ensures
            c == rgb8_of(self),
    {
        Color {
            r: clamp(self.r, 0, 255) as u8,
            g: clamp(self.g, 0, 255) as u8,
            b: clamp(self.b, 0, 255) as u8,
        }
    }
}

} // verus!
