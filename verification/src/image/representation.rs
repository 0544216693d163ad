//! Module containing the internal representation of images.

use vstd::prelude::*;
use vstd::utf8::encode_utf8;
use crate::canvas::Canvas;
use crate::color::Color;
use crate::geometry::vec::Vec2i;
use crate::ascii::{ascii_string, is_ascii_text};
use crate::ppm::{
    body_bytes, body_text, encode_p3, encode_p6, header, lemma_header_is_ascii,
    lemma_pixel_text_is_ascii, push_header, push_pixel_text, row_bytes, row_text, BINARY, PLAIN,
    PNM,
};
use crate::shapes::Shape;

verus! {

/// Struct for representing an image.
///
/// An image keeps the size it was created with. A width or height of zero is
/// permitted: such an image has no pixel, so every read finds nothing and
/// every write is dropped.
pub struct Image {
    cols: usize,
    rows: usize,
    pixels: Vec<Vec<Color>>,
}

impl View for Image {
    type V = Canvas;

    closed spec fn view(&self) -> Canvas {
        Canvas {
            width: self.cols as nat,
            height: self.rows as nat,
            pixels: Seq::new(self.pixels@.len(), |y: int| self.pixels@[y]@),
        }
    }
}

impl Image {
    /// The stored grid has the size the image was created with. Every
    /// constructor establishes this and every method keeps it.
    pub open spec fn wf(&self) -> bool {
        self@.wf()
    }

    /// The width and the height of an image are machine numbers.
    pub proof fn lemma_size_fits(&self)
        ensures
            self@.width <= usize::MAX,
            self@.height <= usize::MAX,
    {
    }

    /// Create a new image with the specified width and height, where all pixels are filled with
    /// black.
    pub fn new(cols: usize, rows: usize) -> (img: Self)
        ensures
            img.wf(),
            img@ == Canvas::filled(cols as nat, rows as nat, Color::black()),
    {
        let pixels = vec![vec![Color::default(); cols]; rows];
        let img = Self { cols, rows, pixels };
        proof {
            let filled = Canvas::filled(cols as nat, rows as nat, Color::black());
            assert forall|y: int| 0 <= y < rows implies img@.pixels[y] =~= filled.pixels[y] by {}
            assert(img@.pixels =~= filled.pixels);
        }
        img
    }

    /// Get the number of columns of this image.
    pub fn cols(&self) -> (cols: usize)
        ensures
            cols == self@.width,
    {
        self.cols
    }

    /// Get the number of rows of this image.
    pub fn rows(&self) -> (rows: usize)
        ensures
            rows == self@.height,
    {
        self.rows
    }

    /// Get the color at the specified index, or None, if the index is out of bounds.
    pub fn get(&self, x: usize, y: usize) -> (pixel: Option<Color>)
        requires
            self.wf(),
        ensures
            pixel == self@.get(x as int, y as int),
    {
        if y < self.pixels.len() {
            let row = &self.pixels[y];
            if x < row.len() {
                assert(self@.pixels[y as int] == row@);
                return Some(row[x]);
            }
        }
        None
    }

    /// Set the color of a pixel at the specified coordinates. A write outside
    /// the image is dropped and leaves the image as it was.
    pub fn set(&mut self, x: usize, y: usize, color: &Color)
        requires
            old(self).wf(),
        ensures
            final(self).wf(),
            final(self)@ == old(self)@.set(x as int, y as int, *color),
    {
        if y < self.pixels.len() {
            if x < self.pixels[y].len() {
                self.pixels[y][x] = *color;
                proof {
                    let after = old(self)@.set(x as int, y as int, *color);
                    assert forall|j: int| 0 <= j < self.rows implies self@.pixels[j]
                        =~= after.pixels[j] by {}
                    assert(self@.pixels =~= after.pixels);
                }
            }
        }
    }

    /// Writes the pixel at a position given in signed coordinates, which may
    /// lie anywhere off the image: such a write is dropped.
    pub(crate) fn plot(&mut self, x: i128, y: i128, color: &Color)
        requires
            old(self).wf(),
        ensures
            final(self).wf(),
            final(self)@ == old(self)@.set(x as int, y as int, *color),
    {
        if 0 <= x && x <= usize::MAX as i128 && 0 <= y && y <= usize::MAX as i128 {
            self.set(x as usize, y as usize, color);
        }
    }

    /// Get the color at a specified pixel.
    /// The semantics are the same as for Image::get; a position with a
    /// negative coordinate lies outside every image.
    pub fn at(&self, vector: Vec2i) -> (pixel: Option<Color>)
        requires
            self.wf(),
        ensures
            pixel == self@.get(vector.x as int, vector.y as int),
    {
        if 0 <= vector.x && vector.x as i128 <= usize::MAX as i128 && 0 <= vector.y && vector.y as i128
            <= usize::MAX as i128 {
            self.get(vector.x as usize, vector.y as usize)
        } else {
            None
        }
    }

    /// Draw a given shape to the picture.
    pub fn draw(&mut self, shape: &dyn Shape)
        requires
            old(self).wf(),
        ensures
            final(self).wf(),
            final(self)@ == shape.rendered(old(self)@),
    {
        shape.draw(self);
    }

    /// Fill the entire image with one color.
    pub fn fill_with(&mut self, color: &Color)
        ensures
            final(self).wf(),
            final(self)@ == Canvas::filled(old(self)@.width, old(self)@.height, *color),
    {
        self.pixels = vec![vec![*color; self.cols]; self.rows];
        proof {
            let filled = Canvas::filled(self.cols as nat, self.rows as nat, *color);
            assert forall|y: int| 0 <= y < self.rows implies self@.pixels[y] =~= filled.pixels[y] by {}
            assert(self@.pixels =~= filled.pixels);
        }
    }
}

impl PNM for Image {
    /// In the plain format an image is the header `P3`, and then its rows
    /// from top to bottom as text.
    open spec fn pnm_p3(&self) -> Seq<u8> {
        encode_p3(self@)
    }

    /// In the binary format an image is the header `P6`, and then its rows
    /// from top to bottom as bytes.
    open spec fn pnm_p6(&self) -> Seq<u8> {
        encode_p6(self@)
    }

    fn to_pnm_p3(&self) -> (text: String)
        ensures
            encode_utf8(text@) == encode_p3(self@),
    {
        let ghost rows = self@.pixels;
        let mut ppm: Vec<u8> = Vec::new();
        // add magic number, dimensions of the picture and max value
        push_header(&mut ppm, PLAIN, self.cols, self.rows);
        let ghost head = ppm@;
        proof {
            lemma_header_is_ascii(PLAIN, self.cols as nat, self.rows as nat);
            assert(head =~= header(PLAIN, self@.width, self@.height));
            assert(rows.take(0) =~= Seq::<Seq<Color>>::empty());
            assert(ppm@ =~= head + body_text(rows.take(0)));
        }
        // add rows after each other
        let mut y: usize = 0;
        while y < self.pixels.len()
            invariant
                y <= self.pixels.len(),
                rows == self@.pixels,
                is_ascii_text(ppm@),
                ppm@ == head + body_text(rows.take(y as int)),
            decreases self.pixels.len() - y,
        {
            let row = &self.pixels[y];
            let ghost done = ppm@;
            let mut x: usize = 0;
            proof {
                assert(rows[y as int] == row@);
                assert(row@.take(0) =~= Seq::<Color>::empty());
                assert(ppm@ =~= done + row_text(row@.take(0)));
            }
            while x < row.len()
                invariant
                    x <= row.len(),
                    is_ascii_text(ppm@),
                    ppm@ == done + row_text(row@.take(x as int)),
                decreases row.len() - x,
            {
                let ghost before = ppm@;
                push_pixel_text(&mut ppm, &row[x]);
                ppm.push(32);
                proof {
                    lemma_pixel_text_is_ascii(row@[x as int]);
                    assert(row@.take(x + 1).drop_last() =~= row@.take(x as int));
                    assert(ppm@ =~= done + row_text(row@.take(x + 1)));
                }
                x += 1;
            }
            ppm.push(10);
            proof {
                assert(row@.take(row@.len() as int) =~= row@);
                assert(rows.take(y + 1).drop_last() =~= rows.take(y as int));
                assert(ppm@ =~= head + body_text(rows.take(y + 1)));
            }
            y += 1;
        }
        proof {
            assert(rows.take(rows.len() as int) =~= rows);
        }
        ascii_string(ppm)
    }

    fn to_pnm_p6(&self) -> (bytes: Vec<u8>)
        ensures
            bytes@ == encode_p6(self@),
    {
        let ghost rows = self@.pixels;
        let mut ppm: Vec<u8> = Vec::new();
        // add magic number, dimensions of the picture and max value
        push_header(&mut ppm, BINARY, self.cols, self.rows);
        let ghost head = ppm@;
        proof {
            assert(head =~= header(BINARY, self@.width, self@.height));
            assert(rows.take(0) =~= Seq::<Seq<Color>>::empty());
            assert(ppm@ =~= head + body_bytes(rows.take(0)));
        }
        let mut y: usize = 0;
        while y < self.pixels.len()
            invariant
                y <= self.pixels.len(),
                rows == self@.pixels,
                ppm@ == head + body_bytes(rows.take(y as int)),
            decreases self.pixels.len() - y,
        {
            let row = &self.pixels[y];
            let ghost done = ppm@;
            let mut x: usize = 0;
            proof {
                assert(rows[y as int] == row@);
                assert(row@.take(0) =~= Seq::<Color>::empty());
                assert(ppm@ =~= done + row_bytes(row@.take(0)));
            }
            while x < row.len()
                invariant
                    x <= row.len(),
                    ppm@ == done + row_bytes(row@.take(x as int)),
                decreases row.len() - x,
            {
                let mut pixel = row[x].to_pnm_p6();
                ppm.append(&mut pixel);
                proof {
                    assert(row@.take(x + 1).drop_last() =~= row@.take(x as int));
                    assert(ppm@ =~= done + row_bytes(row@.take(x + 1)));
                }
                x += 1;
            }
            proof {
                assert(row@.take(row@.len() as int) =~= row@);
                assert(rows.take(y + 1).drop_last() =~= rows.take(y as int));
                assert(ppm@ =~= head + body_bytes(rows.take(y + 1)));
            }
            y += 1;
        }
        proof {
            assert(rows.take(rows.len() as int) =~= rows);
        }
        ppm
    }
}

} // verus!
