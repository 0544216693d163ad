//! # Rustvision
//!
//! A small 2D raster-graphics toolkit: an image in memory, shapes that draw
//! themselves into it, and the PPM file format.
//!
//! Every function of this library states what it computes, and the
//! statement is proved. The statements speak of mathematical models:
//!
//! - An [`image::Image`] is a [`canvas::Canvas`]: a width, a height and the
//!   colors of the pixels, row by row from the top. A read outside the image
//!   finds nothing and a write outside it is dropped, so a shape that lies
//!   partly outside an image still draws the part that lies inside. An image
//!   may be zero pixels wide or high; it then has no pixel at all.
//! - A shape is a set of pixels. A [`shapes::Line`] covers the pixels of a
//!   digital line, stepped along its longer axis; a [`shapes::Rectangle`]
//!   covers a block of pixels; a [`shapes::Polygon`] covers its outline and,
//!   where it is filled, the pixels inside it by the even-odd rule. Drawing a
//!   shape paints its pixels in its color and keeps all others.
//! - A PPM file is a sequence of bytes. [`ppm::PNM`] writes an image as plain
//!   (P3) or binary (P6) PPM, and [`image::parse_image`] reads a binary PPM
//!   file back, or tells why the bytes are none.
//!
//! Positions are pixels: vectors with integer coordinates
//! ([`geometry::vec::Vec2i`]). The vector and matrix types of
//! [`geometry`] are generic and do their arithmetic with the operations of
//! their entries.
//!
//! ## Usage
//!
//! Create an image, draw to it, and turn it into the bytes of a file:
//!
//! ```text
//! let mut img = Image::new(400, 400);
//! img.draw(&Rectangle::new(Vec2::new(50, 40), 100, 70, Color::new(255, 0, 0)));
//! let mut polygon = Polygon::from_points(vec![
//!     Vec2::new(200, 40), Vec2::new(200, 100), Vec2::new(300, 100),
//! ]);
//! polygon.set_color(Color::new(0, 255, 0));
//! polygon.set_filled(true);
//! img.draw(&polygon);
//! let bytes = img.to_pnm_p6();
//! ```

pub mod ascii;
pub mod canvas;
pub mod color;
pub mod error;
pub mod files;
pub mod geometry;
pub mod image;
pub mod ppm;
pub mod shapes;
