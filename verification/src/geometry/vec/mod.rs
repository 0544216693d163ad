//! Vectors in 2D space.

mod vec2i;

pub use self::vec2i::Vec2i;

use std::ops::{Add, Div, Mul, Sub};
use vstd::prelude::*;
use vstd::std_specs::ops::{AddSpec, DivSpec, MulSpec, SubSpec};

verus! {

/// Struct for representing a vector in 2D space, used both as a point and as
/// a direction.
/// This vector features common operation such as addition, substraction and scaling
/// (e.g., vector * scalar), each done coordinate by coordinate with the
/// operation of the coordinate type.
///
/// Unless you really know what you are doing, you should probably not use this struct directly.
/// Rather work with the provided utility types (such as `Vec2i`).
#[derive(Debug, Eq, PartialEq, Clone, Copy)]
pub struct Vec2<T> {
    pub x: T,
    pub y: T,
}

impl<T> Vec2<T> {
    /// The vector with the given coordinates.
    pub fn new(x: T, y: T) -> (v: Self)
        ensures
            v.x == x,
            v.y == y,
    {
        Vec2 { x, y }
    }
}

impl<T: Copy> Vec2<T> {
    /// The vector whose two coordinates both hold `val`.
    pub fn splat(val: T) -> (v: Self)
        ensures
            v.x == val,
            v.y == val,
    {
        Vec2 { x: val, y: val }
    }
}

impl<T> Vec2<T> where T: Mul<Output = T> + Add<Output = T> + Copy {
    /// The dot product of two vectors as a value of the coordinate type: the
    /// sum of the products of their coordinates.
    pub open spec fn dot_product(self, rhs: Self) -> T {
        self.x.mul_spec(rhs.x).add_spec(self.y.mul_spec(rhs.y))
    }

    /// Calculate the dot product of this vector and another one. The two
    /// products and their sum have to be possible in the coordinate type:
    /// for machine integers, they must not overflow.
    pub fn dot(&self, rhs: &Self) -> (product: T)
        requires
            T::obeys_mul_spec(),
            self.x.mul_req(rhs.x),
            self.y.mul_req(rhs.y),
            self.x.mul_spec(rhs.x).add_req(self.y.mul_spec(rhs.y)),
        ensures
            T::obeys_add_spec() ==> product == self.dot_product(*rhs),
    {
        self.x * rhs.x + self.y * rhs.y
    }
}

impl<T: Default> Default for Vec2<T> {
    /// The vector whose coordinates are both the default of their type: for
    /// numbers, the zero vector.
    fn default() -> (v: Self)
        ensures
            T::default.ensures((), v.x),
            T::default.ensures((), v.y),
    {
        Vec2 { x: T::default(), y: T::default() }
    }
}

impl<T> vstd::std_specs::ops::AddSpecImpl for Vec2<T> where T: Add<Output = T> {
    open spec fn obeys_add_spec() -> bool {
        T::obeys_add_spec()
    }

    open spec fn add_req(self, rhs: Self) -> bool {
        self.x.add_req(rhs.x) && self.y.add_req(rhs.y)
    }

    open spec fn add_spec(self, rhs: Self) -> Self {
        Vec2 { x: self.x.add_spec(rhs.x), y: self.y.add_spec(rhs.y) }
    }
}

impl<T> Add for Vec2<T> where T: Add<Output = T> {
    type Output = Self;

    /// The sum of two vectors.
    fn add(self, rhs: Self) -> (sum: Self::Output)
        ensures
            T::obeys_add_spec() ==> sum.x == self.x.add_spec(rhs.x) && sum.y == self.y.add_spec(
                rhs.y,
            ),
    {
        Self { x: self.x + rhs.x, y: self.y + rhs.y }
    }
}

impl<T> vstd::std_specs::ops::SubSpecImpl for Vec2<T> where T: Sub<Output = T> {
    open spec fn obeys_sub_spec() -> bool {
        T::obeys_sub_spec()
    }

    open spec fn sub_req(self, rhs: Self) -> bool {
        self.x.sub_req(rhs.x) && self.y.sub_req(rhs.y)
    }

    open spec fn sub_spec(self, rhs: Self) -> Self {
        Vec2 { x: self.x.sub_spec(rhs.x), y: self.y.sub_spec(rhs.y) }
    }
}

impl<T> Sub for Vec2<T> where T: Sub<Output = T> {
    type Output = Self;

    /// The difference of two vectors.
    fn sub(self, rhs: Self) -> (difference: Self::Output)
        ensures
            T::obeys_sub_spec() ==> difference.x == self.x.sub_spec(rhs.x) && difference.y
                == self.y.sub_spec(rhs.y),
    {
        Self { x: self.x - rhs.x, y: self.y - rhs.y }
    }
}

impl<T> vstd::std_specs::ops::MulSpecImpl<T> for Vec2<T> where T: Mul<Output = T> + Clone + Copy {
    open spec fn obeys_mul_spec() -> bool {
        T::obeys_mul_spec()
    }

    open spec fn mul_req(self, rhs: T) -> bool {
        self.x.mul_req(rhs) && self.y.mul_req(rhs)
    }

    open spec fn mul_spec(self, rhs: T) -> Self {
        Vec2 { x: self.x.mul_spec(rhs), y: self.y.mul_spec(rhs) }
    }
}

impl<T> Mul<T> for Vec2<T> where T: Mul<Output = T> + Clone + Copy {
    type Output = Self;

    /// The vector scaled by a factor.
    fn mul(self, rhs: T) -> (scaled: Self::Output)
        ensures
            T::obeys_mul_spec() ==> scaled.x == self.x.mul_spec(rhs) && scaled.y == self.y.mul_spec(
                rhs,
            ),
    {
        Self { x: self.x * rhs, y: self.y * rhs }
    }
}

impl<T> vstd::std_specs::ops::DivSpecImpl<T> for Vec2<T> where T: Div<Output = T> + Clone + Copy {
    open spec fn obeys_div_spec() -> bool {
        T::obeys_div_spec()
    }

    open spec fn div_req(self, rhs: T) -> bool {
        self.x.div_req(rhs) && self.y.div_req(rhs)
    }

    open spec fn div_spec(self, rhs: T) -> Self {
        Vec2 { x: self.x.div_spec(rhs), y: self.y.div_spec(rhs) }
    }
}

impl<T> Div<T> for Vec2<T> where T: Div<Output = T> + Clone + Copy {
    type Output = Self;

    /// The vector with both coordinates divided by a divisor.
    fn div(self, rhs: T) -> (quotient: Self::Output)
        ensures
            T::obeys_div_spec() ==> quotient.x == self.x.div_spec(rhs) && quotient.y
                == self.y.div_spec(rhs),
    {
        Self { x: self.x / rhs, y: self.y / rhs }
    }
}

/// The dot product of two integer vectors is the sum of the products of their
/// coordinates, where that sum and those products fit into the integers.
pub proof fn lemma_dot_product_of_integers(lhs: Vec2i, rhs: Vec2i)
    requires
        i64::MIN <= lhs.x * rhs.x <= i64::MAX,
        i64::MIN <= lhs.y * rhs.y <= i64::MAX,
        i64::MIN <= lhs.x * rhs.x + lhs.y * rhs.y <= i64::MAX,
    ensures
        lhs.x.mul_req(rhs.x),
        lhs.y.mul_req(rhs.y),
        lhs.x.mul_spec(rhs.x).add_req(lhs.y.mul_spec(rhs.y)),
        lhs.dot_product(rhs) == lhs.x * rhs.x + lhs.y * rhs.y,
{
}

} // verus!
