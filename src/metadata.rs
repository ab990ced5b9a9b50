//! The records that describe an archive, and the ways reading one can fail.
use vstd::prelude::*;

verus! {

/// How one image was encoded.
#[derive(Clone, Debug)]
pub struct CompressedImageInfo {
    /// Not read back; kept for the layout of the record.
    pub start_index: usize,
    /// Left edge of the changed region in the image.
    pub x: u32,
    /// Top edge of the changed region in the image.
    pub y: u32,
    /// Width of the changed region.
    pub diff_width: u32,
    /// Height of the changed region.
    pub diff_height: u32,
    /// Width of the image.
    pub output_width: u32,
    /// Height of the image.
    pub output_height: u32,
    /// Where the image goes, relative to the output folder.
    pub output_path: String,
}

/// The metadata of an archive.
#[derive(Debug)]
pub struct DecompressionInfo {
    /// Not read back; kept for the layout of the record.
    pub canvas_size: (u32, u32),
    /// Where the bitmap stream starts in the archive.
    pub bitmap_data_start: u64,
    /// One record per image, in the order the images were encoded.
    pub images_info: Vec<CompressedImageInfo>,
}

/// Why an archive could not be read.
#[derive(Clone, Copy, Debug, PartialEq, Eq, Structural)]
pub enum ArchiveError {
    /// The header or the metadata does not describe the archive.
    MalformedArchive,
    /// A stream ends before the records say it should.
    StreamExhausted,
}

} // verus!
