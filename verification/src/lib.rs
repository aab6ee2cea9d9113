//! Codec for the BIF thumbnail index format: a fixed header, a table of
//! (timestamp, offset) pairs closed by a sentinel pair, and the image
//! payloads laid out back to back.
//!
//! The codec works on byte buffers. Reading a container from disk and writing
//! one back is left to the caller.

pub mod model;
pub mod layout;
pub mod naming;
pub mod decoder;
pub mod encoder;
pub mod extract;
pub mod laws;

pub use crate::model::{Bif, BifError, Image};
pub use crate::decoder::decode;
pub use crate::encoder::{encode, Encoded};
pub use crate::extract::{extract_image, extract_images, ExtractedImage};
