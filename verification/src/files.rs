//! The file types this library knows, told apart by their magic constant.

use vstd::prelude::*;
use vstd::std_specs::convert::TryFromSpecImpl;

verus! {

/// Enum representing all supported files types of this library.
#[derive(Clone, Copy, Debug, PartialEq, Eq, Structural)]
pub enum FileTypes {
    PPM3,
    PPM6,
}

/// Error when an unsupported image is provided. It holds the magic constant
/// that was found in place of a supported one.
#[derive(Debug)]
pub struct InvalidMagicConstantError(pub Vec<u8>);

/// The file type that a magic constant stands for: `P3` for plain and `P6`
/// for binary PPM. No other magic constant is supported.
pub open spec fn file_type(magic_constant: Seq<u8>) -> Option<FileTypes> {
    if magic_constant == seq![80u8, 51u8] {
        Some(FileTypes::PPM3)
    } else if magic_constant == seq![80u8, 54u8] {
        Some(FileTypes::PPM6)
    } else {
        None
    }
}

impl<'a> TryFromSpecImpl<&'a [u8]> for FileTypes {
    open spec fn obeys_try_from_spec() -> bool {
        false
    }

    open spec fn try_from_spec(magic_constant: &'a [u8]) -> Result<Self, Self::Error> {
        arbitrary()
    }
}

impl<'a> TryFrom<&'a [u8]> for FileTypes {
    type Error = InvalidMagicConstantError;

    /// Tells the file type from the magic constant, or hands the magic
    /// constant back in the error where it is not a supported one.
    fn try_from(magic_constant: &'a [u8]) -> (result: Result<Self, Self::Error>)
        ensures
            match result {
                Ok(kind) => file_type(magic_constant@) == Some(kind),
                Err(error) => file_type(magic_constant@) == None::<FileTypes> && error.0@
                    == magic_constant@,
            },
    {
        if magic_constant.len() == 2 && magic_constant[0] == 80 {
            if magic_constant[1] == 51 {
                assert(magic_constant@ =~= seq![80u8, 51u8]);
                return Ok(FileTypes::PPM3);
            }
            if magic_constant[1] == 54 {
                assert(magic_constant@ =~= seq![80u8, 54u8]);
                return Ok(FileTypes::PPM6);
            }
        }
        Err(InvalidMagicConstantError(vstd::slice::slice_to_vec(magic_constant)))
    }
}

} // verus!
