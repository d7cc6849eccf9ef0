//! The error type shared by all decoders.

use vstd::prelude::*;

verus! {

#[verifier::external_type_specification]
#[verifier::external_body]
pub struct ExIoError(std::io::Error);

#[verifier::external_type_specification]
#[verifier::external_body]
pub struct ExTryFromSliceError(std::array::TryFromSliceError);

/// Why an image could not be read or decoded.
#[derive(Debug)]
pub enum ImageError {
    /// Reading the file failed.
    Io(std::io::Error),
    /// The bytes do not describe an image this library decodes; the text says why.
    CustomError(String),
    /// A slice could not be turned into a fixed-size array.
    TryFrom(std::array::TryFromSliceError),
}

/// Whether `e` is a `CustomError` whose text is `msg`.
pub open spec fn is_custom(e: ImageError, msg: Seq<char>) -> bool {
    e matches ImageError::CustomError(s) && s@ == msg
}

} // verus!
