//! Art that encodes data: the canvas model, its visiting order, the text
//! form of an image, and the framing of the encoded bytes.
pub mod pixels;
pub mod spiral;
pub mod art;
pub mod image;
pub mod framing;
pub mod hexdigits;
pub mod flags;
pub mod reader;
