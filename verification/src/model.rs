//! The in-memory index: one entry per image, and the container's metadata.

use vstd::prelude::*;

verus! {

/// Position of one image inside a container.
#[derive(Debug)]
pub struct Image {
    /// Stable, sortable identifier derived from the timestamp in milliseconds.
    pub name: String,
    /// Raw timestamp, in units of the container's framewise separation.
    pub timestamp: u32,
    /// Absolute byte offset of the payload from the start of the container.
    pub offset: u32,
    /// Payload length in bytes.
    pub size: usize,
}

/// Mathematical value of an [`Image`].
pub struct ImageView {
    pub name: Seq<char>,
    pub timestamp: u32,
    pub offset: u32,
    pub size: usize,
}

impl View for Image {
    type V = ImageView;

    open spec fn view(&self) -> ImageView {
        ImageView {
            name: self.name@,
            timestamp: self.timestamp,
            offset: self.offset,
            size: self.size,
        }
    }
}

/// Metadata of a whole container and its ordered entries.
#[derive(Debug)]
pub struct Bif {
    /// Where the container lives; carried through, never interpreted.
    pub path: String,
    pub version: u32,
    pub total_images: u32,
    /// Millisecond multiplier applied to a raw timestamp.
    pub framewise_separation: u32,
    pub images: Vec<Image>,
}

/// Mathematical value of a [`Bif`].
pub struct BifView {
    pub path: Seq<char>,
    pub version: u32,
    pub total_images: u32,
    pub framewise_separation: u32,
    pub images: Seq<ImageView>,
}

impl View for Bif {
    type V = BifView;

    open spec fn view(&self) -> BifView {
        BifView {
            path: self.path@,
            version: self.version,
            total_images: self.total_images,
            framewise_separation: self.framewise_separation,
            images: Seq::new(self.images@.len(), |i: int| self.images@[i]@),
        }
    }
}

/// Why a decode, encode or extraction gave up.
#[derive(Debug, Clone, Copy, PartialEq, Eq, Structural)]
pub enum BifError {
    /// The buffer does not start with the magic bytes.
    InvalidFormat,
    /// The version field is not the supported one.
    UnsupportedVersion,
    /// The offset table contradicts itself or the declared image count.
    CorruptIndex,
    /// The buffer ended before the bytes that were asked for.
    IoError,
    /// The layout does not fit the 32-bit fields of the format.
    TooLarge,
}

} // verus!
