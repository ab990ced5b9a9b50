//! A lossless delta codec for sequences of related RGBA sprites.
//!
//! Each image is stored as the pixels that differ from its predecessor once
//! both are bottom-centred on a common canvas: a one-byte-per-pixel change
//! bitmap over the bounding box of the changes, and the raw RGBA of each
//! changed pixel, both in block order. The two streams and the metadata are
//! compressed with brotli into one archive.
pub mod align;
pub mod alphablend;
pub mod archive;
pub mod block_order;
pub mod byte_counter;
pub mod bytes;
pub mod codec;
pub mod crop;
pub mod delta;
pub mod metadata;
pub mod raster;
pub mod text;
pub mod verify;
