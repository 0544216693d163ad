//! The mathematical model of an image: a grid of colors.

use vstd::prelude::*;
use crate::color::Color;

verus! {

/// What an image holds: `height` rows of `width` colors each. The pixel in
/// column `x` of row `y` is `pixels[y][x]`; row 0 is the top row.
pub struct Canvas {
    pub width: nat,
    pub height: nat,
    pub pixels: Seq<Seq<Color>>,
}

impl Canvas {
    /// The grid has exactly `height` rows, each of exactly `width` pixels.
    pub open spec fn wf(self) -> bool {
        &&& self.pixels.len() == self.height
        &&& forall|y: int| 0 <= y < self.height ==> (#[trigger] self.pixels[y]).len() == self.width
    }

    /// Whether column `x` of row `y` lies on the canvas.
    pub open spec fn in_bounds(self, x: int, y: int) -> bool {
        0 <= x < self.width && 0 <= y < self.height
    }

    /// A canvas of the given size on which every pixel has the same color.
    pub open spec fn filled(width: nat, height: nat, color: Color) -> Canvas {
        Canvas {
            width,
            height,
            pixels: Seq::new(height, |y: int| Seq::new(width, |x: int| color)),
        }
    }

    /// The color at `(x, y)`, or `None` off the canvas.
    pub open spec fn get(self, x: int, y: int) -> Option<Color> {
        if self.in_bounds(x, y) {
            Some(self.pixels[y][x])
        } else {
            None
        }
    }

    /// The canvas with the pixel at `(x, y)` replaced by `color`; the canvas
    /// itself where `(x, y)` lies off it.
    pub open spec fn set(self, x: int, y: int, color: Color) -> Canvas {
        if self.in_bounds(x, y) {
            Canvas { pixels: self.pixels.update(y, self.pixels[y].update(x, color)), ..self }
        } else {
            self
        }
    }

    /// The canvas with every pixel of `region` that lies on it replaced by
    /// `color`, and every other pixel kept.
    pub open spec fn paint(self, region: Set<(int, int)>, color: Color) -> Canvas {
        Canvas {
            width: self.width,
            height: self.height,
            pixels: Seq::new(
                self.height,
                |y: int|
                    Seq::new(
                        self.width,
                        |x: int|
                            if region.contains((x, y)) {
                                color
                            } else {
                                self.pixels[y][x]
                            },
                    ),
            ),
        }
    }

    /// Reading a pixel back after writing it yields the written color; a
    /// write off the canvas changes nothing, and a read there finds nothing.
    pub proof fn lemma_get_after_set(self, x: int, y: int, color: Color)
        requires
            self.wf(),
        ensures
            self.set(x, y, color).wf(),
            self.in_bounds(x, y) ==> self.set(x, y, color).get(x, y) == Some(color),
            !self.in_bounds(x, y) ==> self.get(x, y) == None::<Color> && self.set(x, y, color)
                == self,
            forall|i: int, j: int|
                (i != x || j != y) ==> self.set(x, y, color).get(i, j) == self.get(i, j),
    {
    }

    /// After a fill, every pixel of the canvas reads as the fill color.
    pub proof fn lemma_get_after_fill(width: nat, height: nat, color: Color, x: int, y: int)
        requires
            0 <= x < width,
            0 <= y < height,
        ensures
            Canvas::filled(width, height, color).wf(),
            Canvas::filled(width, height, color).get(x, y) == Some(color),
    {
    }

    /// Painting a region and then one more pixel is painting the region with
    /// that pixel added.
    pub proof fn lemma_paint_then_set(self, region: Set<(int, int)>, x: int, y: int, color: Color)
        requires
            self.wf(),
        ensures
            self.paint(region, color).wf(),
            self.paint(region, color).set(x, y, color) == self.paint(region.insert((x, y)), color),
    {
        let a = self.paint(region, color).set(x, y, color);
        let b = self.paint(region.insert((x, y)), color);
        assert forall|j: int| 0 <= j < self.height implies a.pixels[j] =~= b.pixels[j] by {
            assert(self.pixels[j].len() == self.width);
        }
        assert(a.pixels =~= b.pixels);
    }

    /// Painting one region and then another in the same color is painting
    /// the two regions together.
    pub proof fn lemma_paint_twice(
        self,
        first: Set<(int, int)>,
        second: Set<(int, int)>,
        color: Color,
    )
        ensures
            self.paint(first, color).paint(second, color) == self.paint(first.union(second), color),
    {
        let a = self.paint(first, color).paint(second, color);
        let b = self.paint(first.union(second), color);
        assert forall|j: int| 0 <= j < self.height implies a.pixels[j] =~= b.pixels[j] by {}
        assert(a.pixels =~= b.pixels);
    }

    /// Painting nothing leaves the canvas as it is.
    pub proof fn lemma_paint_nothing(self, color: Color)
        requires
            self.wf(),
        ensures
            self.paint(Set::empty(), color) == self,
    {
        let b = self.paint(Set::empty(), color);
        assert forall|j: int| 0 <= j < self.height implies self.pixels[j] =~= b.pixels[j] by {
            assert(self.pixels[j].len() == self.width);
        }
        assert(self.pixels =~= b.pixels);
    }

    /// Two regions that agree on the canvas paint the same picture.
    pub proof fn lemma_paint_agrees(self, first: Set<(int, int)>, second: Set<(int, int)>, color: Color)
        requires
            forall|x: int, y: int| #![trigger first.contains((x, y))]
                self.in_bounds(x, y) ==> (first.contains((x, y)) <==> second.contains((x, y))),
        ensures
            self.paint(first, color) == self.paint(second, color),
    {
        let a = self.paint(first, color);
        let b = self.paint(second, color);
        assert forall|j: int| 0 <= j < self.height implies a.pixels[j] =~= b.pixels[j] by {
            assert forall|i: int| 0 <= i < self.width implies a.pixels[j][i] == b.pixels[j][i] by {
                assert(self.in_bounds(i, j));
                assert(first.contains((i, j)) <==> second.contains((i, j)));
            }
        }
        assert(a.pixels =~= b.pixels);
    }
}

} // verus!
