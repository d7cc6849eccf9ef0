//! Deciding from the first bytes of a file which decoder reads it.

use crate::error::{is_custom, ImageError};
use vstd::prelude::*;
use vstd::string::*;

verus! {

/// The MIME type that `infer::get` reports for `buf`, if it recognises the bytes.
pub uninterp spec fn inferred_mime_type(buf: Seq<u8>) -> Option<Seq<char>>;

/// Asks `infer::get` which file type `buf` starts with and returns its MIME type.
/// Trusted: the result is `inferred_mime_type` of the bytes; `infer::get` tries
/// its fixed list of matchers in order, so the answer depends on the bytes alone.
/// Which bytes give which type is left unsaid.
#[verifier::external_body]
fn infer_mime_type(buf: &[u8]) -> (m: Option<String>)
    ensures
        match m {
            Some(s) => inferred_mime_type(buf@) == Some(s@),
            None => inferred_mime_type(buf@) is None,
        },
{
    match infer::get(buf) {
        Some(kind) => Some(kind.mime_type().to_string()),
        None => None,
    }
}

/// The decoders a file can be handed to.
#[derive(Debug, Clone, Copy, PartialEq, Eq, Structural)]
pub enum DetectedFormat {
    Png,
    Jpeg,
    Bmp,
}

/// The decoder chosen for a MIME type, or the error text. The BMP decoder is
/// chosen for the type `image/bmg`.
pub open spec fn format_of_mime(mime: Option<Seq<char>>) -> Result<DetectedFormat, Seq<char>> {
    match mime {
        Some(m) => if m == "image/png"@ {
            Ok(DetectedFormat::Png)
        } else if m == "image/jpeg"@ {
            Ok(DetectedFormat::Jpeg)
        } else if m == "image/bmg"@ {
            Ok(DetectedFormat::Bmp)
        } else {
            Err("unsupported file type: "@ + m)
        },
        None => Err("unsupported file type"@),
    }
}

/// The PNG decoder is chosen for `image/png`, the JPEG decoder for
/// `image/jpeg`, the BMP decoder for `image/bmg`; any other type is refused
/// with its name, and a missing type is refused without one.
pub proof fn lemma_mime_choices(m: Seq<char>)
    ensures
        format_of_mime(Some("image/png"@)) == Ok::<DetectedFormat, Seq<char>>(DetectedFormat::Png),
        format_of_mime(Some("image/jpeg"@)) == Ok::<DetectedFormat, Seq<char>>(
            DetectedFormat::Jpeg,
        ),
        format_of_mime(Some("image/bmg"@)) == Ok::<DetectedFormat, Seq<char>>(DetectedFormat::Bmp),
        m != "image/png"@ && m != "image/jpeg"@ && m != "image/bmg"@ ==> format_of_mime(Some(m))
            == Err::<DetectedFormat, Seq<char>>("unsupported file type: "@ + m),
        format_of_mime(None) == Err::<DetectedFormat, Seq<char>>("unsupported file type"@),
{
    reveal_strlit("image/png");
    reveal_strlit("image/jpeg");
    reveal_strlit("image/bmg");
    assert("image/jpeg"@.len() != "image/png"@.len());
    assert("image/bmg"@[6] != "image/png"@[6]);
    assert("image/bmg"@.len() != "image/jpeg"@.len());
}

/// The number of bytes that must be read from the start of a file before its type is decided.
pub const HEADER_LEN: usize = 36;

/// Chooses the decoder for a file whose MIME type is `mime`.
pub fn classify_mime_type(mime: Option<String>) -> (r: Result<DetectedFormat, ImageError>)
    ensures
        match format_of_mime(
            match mime {
                Some(s) => Some(s@),
                None => None,
            },
        ) {
            Ok(f) => r == Ok::<DetectedFormat, ImageError>(f),
            Err(text) => r matches Err(e) && is_custom(e, text),
        },
{
    match mime {
        Some(m) => {
            if m == String::from_str("image/png") {
                Ok(DetectedFormat::Png)
            } else if m == String::from_str("image/jpeg") {
                Ok(DetectedFormat::Jpeg)
            } else if m == String::from_str("image/bmg") {
                Ok(DetectedFormat::Bmp)
            } else {
                Err(ImageError::CustomError(String::from_str("unsupported file type: ").concat(m.as_str())))
            }
        },
        None => Err(ImageError::CustomError(String::from_str("unsupported file type"))),
    }
}

/// Chooses the decoder for a file from the bytes read from its start: fewer
/// than 36 bytes are too few; otherwise the MIME type that `infer` reports decides.
pub fn detect_format(header: &[u8]) -> (r: Result<DetectedFormat, ImageError>)
    ensures
        header@.len() < 36 ==> (r matches Err(e) && is_custom(e, "file too small"@)),
        header@.len() >= 36 ==> match format_of_mime(inferred_mime_type(header@)) {
            Ok(f) => r == Ok::<DetectedFormat, ImageError>(f),
            Err(text) => r matches Err(e) && is_custom(e, text),
        },
{
    if header.len() < HEADER_LEN {
        return Err(ImageError::CustomError(String::from_str("file too small")));
    }
    classify_mime_type(infer_mime_type(header))
}

} // verus!
