//! Module for working with images.

mod representation;

pub use self::representation::Image;

use vstd::prelude::*;
use crate::ascii::{find_byte, position};
use crate::canvas::Canvas;
use crate::error::{Failure, ImageError};
use crate::files::{file_type, FileTypes};
use crate::ppm::{decode_p6, lemma_p6_round_trip, parse_ppm6, PNM};

verus! {

/// The image that the bytes of a file hold, or why they hold none. The file
/// type is told from the magic constant, the first line of the file. Only
/// binary PPM files are read: a plain PPM file is not supported, nor is any
/// other magic constant.
pub open spec fn decode_image(bytes: Seq<u8>) -> Result<Canvas, Failure> {
    let magic = bytes.take(find_byte(bytes, 10, 0));
    match file_type(magic) {
        Some(FileTypes::PPM6) => decode_p6(bytes),
        _ => Err(Failure::UnsupportedFormat { magic }),
    }
}

/// Reading an image of any type reads a binary PPM file, or fails as
/// reading a binary PPM file does.
pub proof fn lemma_decode_image_is_decode_p6(bytes: Seq<u8>)
    ensures
        decode_image(bytes) == decode_p6(bytes),
{
    let magic = bytes.take(find_byte(bytes, 10, 0));
    if magic == seq![80u8, 51u8] {
        assert(magic[1] == 51u8);
    }
}

/// Round trip: reading back the binary form of an image yields an image that
/// is equal to it pixel for pixel.
pub proof fn lemma_round_trip(image: Image)
    requires
        image.wf(),
    ensures
        decode_image(image.pnm_p6()) == Ok::<Canvas, Failure>(image@),
{
    image.lemma_size_fits();
    lemma_p6_round_trip(image@);
    lemma_decode_image_is_decode_p6(image.pnm_p6());
}

/// Try to parse a given image from a vector of u8. The format will be determined from the magic
/// constant at the head of the file.
pub fn parse_image(inp: Vec<u8>) -> (result: Result<Image, ImageError>)
    ensures
        match result {
            Ok(image) => image.wf() && decode_image(inp@) == Ok::<Canvas, Failure>(image@),
            Err(error) => decode_image(inp@) == Err::<Canvas, Failure>(error@),
        },
{
    let bytes = inp.as_slice();
    let first_line_break = position(bytes, 10, 0);
    proof {
        assert(bytes@.take(first_line_break as int) =~= bytes@.subrange(
            0,
            first_line_break as int,
        ));
    }
    let magic_constant = vstd::slice::slice_subrange(bytes, 0, first_line_break);
    match FileTypes::try_from(magic_constant) {
        Ok(FileTypes::PPM6) => parse_ppm6(inp),
        Ok(FileTypes::PPM3) => Err(
            ImageError::UnsupportedFormat { magic: vstd::slice::slice_to_vec(magic_constant) },
        ),
        Err(error) => Err(ImageError::UnsupportedFormat { magic: error.0 }),
    }
}

} // verus!
