//! Formats of disc images, and what a caller can choose when one is written.

use vstd::prelude::*;

verus! {

/// Size in bytes of a dual-layer disc.
pub const DL_DVD_SIZE: u64 = 8_511_160_320;

/// A format of disc images.
#[derive(Clone, Copy, Debug, PartialEq, Eq, Structural)]
pub enum Format {
    Iso,
    Ciso,
    Gcz,
    Nfs,
    Rvz,
    Wbfs,
    Wia,
    Tgc,
}

/// A compression algorithm, with its level.
#[derive(Clone, Copy, Debug, PartialEq, Eq, Structural)]
pub enum Compression {
    Store,
    Bzip2(u8),
    Deflate(u8),
    Lzma(u8),
    Lzma2(u8),
    Zstandard(i8),
}

/// The format to write.
#[derive(Clone, Copy, Debug, PartialEq, Eq, Structural)]
pub struct FormatOptions {
    /// The format itself.
    pub format: Format,
    /// How the blocks are compressed.
    pub compression: Compression,
    /// Size in bytes of a block.
    pub block_size: u32,
}

/// What is left out of the image.
#[derive(Clone, Copy, Debug, PartialEq, Eq, Structural)]
pub enum ScrubLevel {
    /// Only what can be restored.
    Lossless,
    /// The update partitions too.
    UpdatePartition,
}

/// How much work a writer does per block, next to reading it.
#[derive(Clone, Copy, Debug, PartialEq, Eq, Structural)]
pub enum DiscWriterWeight {
    /// Little; one thread is enough.
    Light,
    /// Some; a few threads help.
    Medium,
    /// Much; all threads help.
    Heavy,
}

} // verus!
