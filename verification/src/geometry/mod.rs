//! Geometric primitives: vectors in the plane and matrices.

pub mod mat;
pub mod vec;
