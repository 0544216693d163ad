//! Vectors with integer coordinates.

use vstd::prelude::*;
use super::Vec2;
use crate::geometry::mat::{HomogeneousMatrix, Mat};

verus! {

/// Type for representing a 2D vector with i64 as fields: a pixel position, or
/// an offset between two of them.
pub type Vec2i = Vec2<i64>;

impl vstd::std_specs::convert::FromSpecImpl<Vec2i> for HomogeneousMatrix<i64, 1> {
    open spec fn obeys_from_spec() -> bool {
        true
    }

    open spec fn from_spec(vector: Vec2i) -> Self {
        Mat { matrix: [[vector.x], [vector.y], [1]] }
    }
}

impl From<Vec2i> for HomogeneousMatrix<i64, 1> {
    /// The point in homogeneous coordinates: a column with its x, its y and
    /// a one.
    fn from(vector: Vec2i) -> (column: Self)
        ensures
            column.at(0, 0) == vector.x,
            column.at(1, 0) == vector.y,
            column.at(2, 0) == 1,
    {
        Mat { matrix: [[vector.x], [vector.y], [1]] }
    }
}

} // verus!
