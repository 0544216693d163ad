//! Rectangles in 2D.

use vstd::prelude::*;
use crate::canvas::Canvas;
use crate::color::Color;
use crate::geometry::vec::Vec2i;
use crate::image::Image;
use super::Shape;

verus! {

/// The pixels of the rectangle that has its top left pixel at `anchor` and is
/// `width` pixels wide and `height` pixels high.
pub open spec fn rect_pixels(anchor: Vec2i, width: nat, height: nat) -> Set<(int, int)> {
    Set::new(
        |p: (int, int)|
            anchor.x <= p.0 < anchor.x + width && anchor.y <= p.1 < anchor.y + height,
    )
}

/// The pixels of the rectangle in its first `columns` columns, and in the
/// first `cells` rows of the column after them.
spec fn rect_done(anchor: Vec2i, height: nat, columns: int, cells: int) -> Set<(int, int)> {
    Set::new(
        |p: (int, int)|
            anchor.y <= p.1 < anchor.y + height && (anchor.x <= p.0 < anchor.x + columns || (p.0
                == anchor.x + columns && p.1 < anchor.y + cells)),
    )
}

/// Struct representing a rectangle with given anchor and dimensions. The
/// anchor is the top left pixel of the rectangle.
#[derive(Clone, Copy, Debug)]
pub struct Rectangle {
    pub anchor: Vec2i,
    pub width: usize,
    pub height: usize,
    pub color: Color,
}

impl Default for Rectangle {
    /// The empty, black rectangle at the origin.
    fn default() -> (rect: Self)
        ensures
            rect.anchor.x == 0,
            rect.anchor.y == 0,
            rect.width == 0,
            rect.height == 0,
            rect.color == Color::black(),
    {
        Self { anchor: Vec2i { x: 0, y: 0 }, width: 0, height: 0, color: Color::default() }
    }
}

impl Rectangle {
    /// Create a new rectangle of the given size and color with its top left
    /// pixel at `anchor`.
    pub fn new(anchor: Vec2i, width: usize, height: usize, color: Color) -> (rect: Self)
        ensures
            rect.anchor == anchor,
            rect.width == width,
            rect.height == height,
            rect.color == color,
    {
        Self { anchor, width, height, color }
    }
}

impl Shape for Rectangle {
    /// A rectangle paints every pixel it covers.
    open spec fn rendered(&self, canvas: Canvas) -> Canvas {
        canvas.paint(rect_pixels(self.anchor, self.width as nat, self.height as nat), self.color)
    }

    /// Draws the rectangle pixel by pixel, column after column.
    fn draw(&self, img: &mut Image)
        ensures
            final(img)@ == old(img)@.paint(
                rect_pixels(self.anchor, self.width as nat, self.height as nat),
                self.color,
            ),
    {
        let ghost height = self.height as nat;
        let mut x: usize = 0;
        proof {
            old(img)@.lemma_paint_nothing(self.color);
            assert(rect_done(self.anchor, height, 0, 0) =~= Set::<(int, int)>::empty());
        }
        while x < self.width
            invariant
                img.wf(),
                old(img).wf(),
                x <= self.width,
                height == self.height,
                img@ == old(img)@.paint(rect_done(self.anchor, height, x as int, 0), self.color),
            decreases self.width - x,
        {
            let mut y: usize = 0;
            while y < self.height
                invariant
                    img.wf(),
                    old(img).wf(),
                    x < self.width,
                    y <= self.height,
                    height == self.height,
                    img@ == old(img)@.paint(
                        rect_done(self.anchor, height, x as int, y as int),
                        self.color,
                    ),
                decreases self.height - y,
            {
                proof {
                    let done = rect_done(self.anchor, height, x as int, y as int);
                    old(img)@.lemma_paint_then_set(
                        done,
                        self.anchor.x + x,
                        self.anchor.y + y,
                        self.color,
                    );
                    assert(done.insert((self.anchor.x + x, self.anchor.y + y)) =~= rect_done(
                        self.anchor,
                        height,
                        x as int,
                        y + 1,
                    ));
                }
                img.plot(self.anchor.x as i128 + x as i128, self.anchor.y as i128 + y as i128, &self.color);
                y += 1;
            }
            proof {
                assert(rect_done(self.anchor, height, x as int, self.height as int) =~= rect_done(
                    self.anchor,
                    height,
                    x + 1,
                    0,
                ));
            }
            x += 1;
        }
        proof {
            assert(rect_done(self.anchor, height, self.width as int, 0) =~= rect_pixels(
                self.anchor,
                self.width as nat,
                height,
            ));
        }
    }
}

} // verus!
