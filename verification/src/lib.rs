//! Decoding of the headers and chunk structure of BMP, PNG and JPEG images.
//!
//! Every decoding function states in its contract exactly which value it
//! produces, which error it reports and on which inputs it does so.

pub mod bmp;
pub mod detect;
pub mod endian;
pub mod error;
pub mod image_types;
pub mod jpeg;
pub mod pixels;
pub mod png;
pub mod text;
