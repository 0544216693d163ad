//! The ways in which reading an image can fail.

use vstd::prelude::*;

verus! {

/// Why bytes could not be read as an image.
#[derive(Debug, Clone, PartialEq, Eq)]
pub enum ImageError {
    /// The file does not start with the magic constant of a supported
    /// format. `magic` is what it starts with: its first line.
    UnsupportedFormat { magic: Vec<u8> },
    /// The header lacks one of its lines, or its width, height or largest
    /// channel value is not a number.
    MalformedHeader,
    /// The header is followed by too few or too many bytes. `expected` is
    /// the number of bytes that the width and height of the header ask for,
    /// three for each pixel, or `None` where that number is beyond `usize`;
    /// `actual` is the number of bytes found.
    TruncatedOrPaddedData { expected: Option<usize>, actual: usize },
}

/// An `ImageError` as a mathematical value.
pub enum Failure {
    UnsupportedFormat { magic: Seq<u8> },
    MalformedHeader,
    TruncatedOrPaddedData { expected: Option<usize>, actual: usize },
}

impl View for ImageError {
    type V = Failure;

    open spec fn view(&self) -> Failure {
        match self {
            ImageError::UnsupportedFormat { magic } => Failure::UnsupportedFormat { magic: magic@ },
            ImageError::MalformedHeader => Failure::MalformedHeader,
            ImageError::TruncatedOrPaddedData { expected, actual } => Failure::TruncatedOrPaddedData {
                expected: *expected,
                actual: *actual,
            },
        }
    }
}

} // verus!
