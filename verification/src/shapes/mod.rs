//! Several shapes and geometric primitives to work with.

mod line;
mod polygon;
mod rect;
mod scanline;

pub use self::line::{
    has_tie, lemma_line_symmetry, lemma_line_symmetry_drawn, lemma_tie_breaks_symmetry,
    line_minor, line_pixels, line_point, line_steps, minor_offset, span, tie_at, toward, Line,
};
pub use self::polygon::{
    crossings, inside, lemma_degenerate_polygon_is_hollow, lemma_inside_between_points,
    lemma_sides_climb, lemma_sides_join_points, polygon_interior, polygon_outline, polygon_sides,
    sides_at, sides_upto, Polygon, Side,
};
pub use self::rect::{rect_pixels, Rectangle};

use vstd::prelude::*;
use crate::canvas::Canvas;
use crate::image::Image;

verus! {

/// Something that can render itself into an image. A shape never keeps the
/// image it is drawn to; pixels of the shape that fall outside the image are
/// dropped, the rest is drawn.
pub trait Shape {
    /// The canvas as it looks once this shape has been drawn over it.
    spec fn rendered(&self, canvas: Canvas) -> Canvas;

    /// Draw this shape.
    fn draw(&self, img: &mut Image)
        requires
            old(img).wf(),
        ensures
            final(img).wf(),
            final(img)@ == self.rendered(old(img)@),
    ;
}

} // verus!
