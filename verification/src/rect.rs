//! A rectangle over any type that multiplies, and a sum.

use vstd::prelude::*;
use vstd::std_specs::ops::MulSpec;

verus! {

/// A rectangle over any scalar type `T`.
#[derive(Debug, Clone)]
pub struct Rectangle<T> {
    pub width: T,
    pub height: T,
}

impl<T> Rectangle<T> {
    /// Builds the rectangle with the given sides.
    pub fn new(width: T, height: T) -> (r: Rectangle<T>)
        ensures
            r.width == width,
            r.height == height,
    {
        Rectangle { width, height }
    }
}

impl<T> Rectangle<T> where T: std::ops::Mul<Output = T> + Copy {
    /// The product of the two sides, as `T` multiplies.
    pub fn area(&self) -> (a: T)
        requires
            self.width.mul_req(self.height),
        ensures
            T::obeys_mul_spec() ==> a == self.width.mul_spec(self.height),
    {
        self.width * self.height
    }
}

/// The sum of two 32-bit integers that fits in 32 bits.
pub fn add(a: i32, b: i32) -> (sum: i32)
    requires
        i32::MIN <= a + b <= i32::MAX,
    ensures
        sum == a + b,
{
    a + b
}

} // verus!
