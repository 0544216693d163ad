//! Colors with three 8-bit channels.

use vstd::prelude::*;
use vstd::utf8::encode_utf8;
use crate::ascii::{ascii_string, decimal, lemma_decimal_is_digits, push_decimal};
use crate::ppm::{lemma_pixel_text_is_ascii, pixel_bytes, pixel_text, push_pixel_text, PNM};

verus! {

/// A regular 8-bit RGB color.
#[derive(Clone, Copy, Debug, PartialEq, Eq, Structural)]
pub struct Color {
    pub r: u8,
    pub g: u8,
    pub b: u8,
}

impl Color {
    /// The color with the given red, green and blue channels.
    pub fn new(r: u8, g: u8, b: u8) -> (color: Self)
        ensures
            color == (Color { r, g, b }),
    {
        Self { r, g, b }
    }

    /// The gray whose three channels all hold `val`.
    pub fn splat(val: u8) -> (color: Self)
        ensures
            color == (Color { r: val, g: val, b: val }),
    {
        Self { r: val, g: val, b: val }
    }

    /// Black, the color every fresh image is filled with.
    pub open spec fn black() -> Color {
        Color { r: 0, g: 0, b: 0 }
    }

    /// The color as text: its three channels in decimal, separated by commas
    /// and enclosed in round brackets.
    pub open spec fn text(self) -> Seq<u8> {
        seq![40u8] + decimal(self.r as nat) + seq![44u8] + decimal(self.g as nat) + seq![44u8]
            + decimal(self.b as nat) + seq![41u8]
    }

    /// The color as a string, such as `(255,0,0)` for red.
    pub fn to_string(&self) -> (text: String)
        ensures
            encode_utf8(text@) == self.text(),
    {
        let mut out: Vec<u8> = Vec::new();
        out.push(40);
        push_decimal(&mut out, self.r as usize);
        out.push(44);
        push_decimal(&mut out, self.g as usize);
        out.push(44);
        push_decimal(&mut out, self.b as usize);
        out.push(41);
        proof {
            lemma_decimal_is_digits(self.r as nat);
            lemma_decimal_is_digits(self.g as nat);
            lemma_decimal_is_digits(self.b as nat);
            assert(out@ =~= self.text());
        }
        ascii_string(out)
    }
}

impl Default for Color {
    /// The default color is black.
    fn default() -> (color: Self)
        ensures
            color == Color::black(),
    {
        Self { r: 0, g: 0, b: 0 }
    }
}

impl PNM for Color {
    /// In the plain format a color is its three channels in decimal,
    /// separated by spaces.
    open spec fn pnm_p3(&self) -> Seq<u8> {
        pixel_text(*self)
    }

    /// In the binary format a color is its three channels, a byte each.
    open spec fn pnm_p6(&self) -> Seq<u8> {
        pixel_bytes(*self)
    }

    fn to_pnm_p3(&self) -> (text: String)
        ensures
            encode_utf8(text@) == pixel_text(*self),
    {
        let mut out: Vec<u8> = Vec::new();
        push_pixel_text(&mut out, self);
        proof {
            lemma_pixel_text_is_ascii(*self);
            assert(out@ =~= pixel_text(*self));
        }
        ascii_string(out)
    }

    fn to_pnm_p6(&self) -> (bytes: Vec<u8>)
        ensures
            bytes@ == pixel_bytes(*self),
    {
        let mut out: Vec<u8> = Vec::new();
        out.push(self.r);
        out.push(self.g);
        out.push(self.b);
        assert(out@ =~= pixel_bytes(*self));
        out
    }
}

} // verus!
