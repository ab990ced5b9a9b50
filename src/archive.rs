//! The archive: an eight-byte header, then the compressed image data
//! stream, the compressed bitmap stream and the compressed metadata.
//!
//! ```text
//! offset 0        metadata_start, u64 little-endian
//! offset 8 .. A   compressed image data stream
//! offset A .. M   compressed bitmap stream   (A = bitmap_data_start)
//! offset M .. end compressed metadata        (M = metadata_start)
//! ```
use crate::bytes::{le_bytes, le_value, u64_to_u8_buf_little_endian, u8_buf_to_u64_little_endian};
use crate::codec::{
    bitmap_len_of, bitmap_stream, images_fit, lemma_stream_balance, records_of, rgba_stream,
    DeltaDecoder, DeltaEncoder,
};
use crate::delta::ones;
use crate::metadata::CompressedImageInfo;
use crate::raster::RasterView;
use crate::metadata::{ArchiveError, DecompressionInfo};
use crate::raster::{empty_raster, raw_bytes, Image};
use vstd::prelude::*;

verus! {

/// The length of the header that holds the metadata offset.
pub const FILE_FORMAT_HEADER_LENGTH: usize = 8;

/// The buffer size of every compressor and decompressor.
pub const BROTLI_BUFFER_SIZE: usize = 4096;

/// The compression quality of every compressor.
pub const BROTLI_QUALITY: u32 = 11;

/// The base-2 logarithm of the window of every compressor.
pub const BROTLI_WINDOW: u32 = 24;

/// The brotli stream that compressing `data` with the given buffer size,
/// quality and window gives.
pub uninterp spec fn brotli_compressed(data: Seq<u8>, buffer_size: usize, quality: u32, lgwin: u32) -> Seq<u8>;

/// `data` compressed as every stream of the archive is.
pub open spec fn compressed(data: Seq<u8>) -> Seq<u8> {
    brotli_compressed(data, BROTLI_BUFFER_SIZE, BROTLI_QUALITY, BROTLI_WINDOW)
}

/// Relies on `brotli::CompressorWriter`: `write_all` into a writer over a
/// `Vec`, then `into_inner`, which finishes the stream and hands the `Vec`
/// back. The stream depends on the bytes and the parameters alone.
#[verifier::external_body]
fn brotli_compress(data: &[u8], buffer_size: usize, quality: u32, lgwin: u32) -> (r: Vec<u8>)
    ensures
        r@ == brotli_compressed(data@, buffer_size, quality, lgwin),
{
    let mut writer = brotli::CompressorWriter::new(Vec::new(), buffer_size, quality, lgwin);
    let _ = std::io::Write::write_all(&mut writer, data);
    writer.into_inner()
}

/// `r` holds the bytes that `input` was compressed from, where `input` is
/// what compressing some bytes with a valid quality and window gave.
pub open spec fn restores(input: Seq<u8>, r: Option<Vec<u8>>) -> bool {
    forall|s: Seq<u8>, b: usize, q: u32, w: u32|
        q <= 11 && 10 <= w <= 24 && input == #[trigger] brotli_compressed(s, b, q, w) ==> (
        r matches Some(v) && v@ == s)
}

/// Relies on `brotli::Decompressor` read to its end: a stream that
/// compressing some bytes gave decompresses to those bytes.
#[verifier::external_body]
fn brotli_decompress(data: &[u8], buffer_size: usize) -> (r: Option<Vec<u8>>)
    ensures
        restores(data@, r),
{
    let mut out = Vec::new();
    match std::io::Read::read_to_end(&mut brotli::Decompressor::new(data, buffer_size), &mut out) {
        Ok(_) => Some(out),
        Err(_) => None,
    }
}

/// `img` compressed as every stream of the archive is.
pub fn compress_buffer(img: &Vec<u8>) -> (r: Vec<u8>)
    ensures
        r@ == compressed(img@),
{
    brotli_compress(img.as_slice(), BROTLI_BUFFER_SIZE, BROTLI_QUALITY, BROTLI_WINDOW)
}

/// The raw RGBA bytes of `img`, compressed as every stream of the archive is.
pub fn compress_image_to_buffer(img: &Image) -> (r: Vec<u8>)
    requires
        4 * img@.pixels.len() <= usize::MAX,
    ensures
        r@ == compressed(raw_bytes(img@.pixels)),
{
    let raw = img.to_raw();
    compress_buffer(&raw)
}

/// Decompresses a stream of the archive.
fn decompress_buffer(data: &[u8]) -> (r: Option<Vec<u8>>)
    ensures
        forall|s: Seq<u8>| data@ == #[trigger] compressed(s) ==> (r matches Some(v) && v@ == s),
{
    brotli_decompress(data, BROTLI_BUFFER_SIZE)
}

/// Appends `b` to `a`.
fn append_bytes(a: &mut Vec<u8>, b: &Vec<u8>)
    ensures
        final(a)@ == old(a)@ + b@,
{
    let mut i: usize = 0;
    while i < b.len()
        invariant
            i <= b@.len(),
            a@ == old(a)@ + b@.subrange(0, i as int),
        decreases b@.len() - i,
    {
        a.push(b[i]);
        i = i + 1;
        assert(a@ =~= old(a)@ + b@.subrange(0, i as int));
    }
    assert(b@.subrange(0, b@.len() as int) =~= b@);
}

/// The archive with the given compressed streams: the header holding the
/// offset of the metadata stream, then the three streams.
pub open spec fn archive_layout(
    image_stream: Seq<u8>,
    bitmap_stream: Seq<u8>,
    metadata_stream: Seq<u8>,
) -> Seq<u8> {
    le_bytes((8 + image_stream.len() + bitmap_stream.len()) as u64) + image_stream + bitmap_stream
        + metadata_stream
}

/// The header of an archive holds the offset at which its metadata stream
/// begins, and its bitmap stream starts between the header and that offset,
/// each stream lying where the offsets say.
pub proof fn lemma_header_self_consistent(
    image_stream: Seq<u8>,
    bitmap_stream: Seq<u8>,
    metadata_stream: Seq<u8>,
)
    requires
        8 + image_stream.len() + bitmap_stream.len() <= u64::MAX,
    ensures
        ({
            let archive = archive_layout(image_stream, bitmap_stream, metadata_stream);
            let a = 8 + image_stream.len() as int;
            let m = a + bitmap_stream.len() as int;
            &&& header_valid(archive)
            &&& metadata_start_of(archive) == m
            &&& archive.subrange(8, a) == image_stream
            &&& archive.subrange(a, m) == bitmap_stream
            &&& archive.subrange(m, archive.len() as int) == metadata_stream
            &&& image_stream.len() > 0 && bitmap_stream.len() > 0 ==> 8 < a < m
        }),
{
    let m = (8 + image_stream.len() + bitmap_stream.len()) as u64;
    let archive = archive_layout(image_stream, bitmap_stream, metadata_stream);
    let a = 8 + image_stream.len() as int;
    assert(archive.subrange(0, 8) =~= le_bytes(m));
    crate::bytes::lemma_le_value_of_bytes(m);
    assert(archive.subrange(8, a) =~= image_stream);
    assert(archive.subrange(a, m as int) =~= bitmap_stream);
    assert(archive.subrange(m as int, archive.len() as int) =~= metadata_stream);
}

/// An archive whose image data and bitmap streams are written, waiting for
/// its metadata.
pub struct ArchiveWriter {
    archive: Vec<u8>,
    bitmap_data_start: u64,
    image_stream: Ghost<Seq<u8>>,
    bitmap_stream: Ghost<Seq<u8>>,
}

impl ArchiveWriter {
    /// The compressed image data stream.
    pub closed spec fn image_stream(&self) -> Seq<u8> {
        self.image_stream@
    }

    /// The compressed bitmap stream.
    pub closed spec fn bitmap_stream(&self) -> Seq<u8> {
        self.bitmap_stream@
    }

    pub closed spec fn wf(&self) -> bool {
        &&& self.archive@ == seq![0u8, 0u8, 0u8, 0u8, 0u8, 0u8, 0u8, 0u8] + self.image_stream@
            + self.bitmap_stream@
        &&& self.bitmap_data_start == 8 + self.image_stream@.len()
    }
}

impl DeltaEncoder {
    /// Compresses the streams of the images encoded, lays out the archive up
    /// to its metadata, and returns the metadata record to be serialised.
    pub fn finish(self) -> (r: (ArchiveWriter, DecompressionInfo))
        requires
            self.wf(),
        ensures
            ({
                let (w, info) = r;
                let a = compressed(rgba_stream(self.images()));
                let b = compressed(bitmap_stream(self.images()));
                &&& w.wf()
                &&& w.image_stream() == a
                &&& w.bitmap_stream() == b
                &&& info.bitmap_data_start == 8 + a.len()
                &&& info.canvas_size == (0u32, 0u32)
                &&& info.images_info@ == self.records()
                &&& records_of(info.images_info@, self.images())
            }),
    {
        let ghost images = self.images();
        let (bitmap, image_data, images_info) = self.into_parts();
        let mut archive: Vec<u8> = vec![0u8, 0u8, 0u8, 0u8, 0u8, 0u8, 0u8, 0u8];
        assert(archive@ =~= seq![0u8, 0u8, 0u8, 0u8, 0u8, 0u8, 0u8, 0u8]);
        let image_stream = compress_buffer(&image_data);
        append_bytes(&mut archive, &image_stream);
        let bitmap_data_start = archive.len() as u64;
        let bitmap_stream = compress_buffer(&bitmap);
        append_bytes(&mut archive, &bitmap_stream);
        let info = DecompressionInfo { canvas_size: (0, 0), bitmap_data_start, images_info };
        let w = ArchiveWriter {
            archive,
            bitmap_data_start,
            image_stream: Ghost(image_stream@),
            bitmap_stream: Ghost(bitmap_stream@),
        };
        assert(w.archive@ =~= seq![0u8, 0u8, 0u8, 0u8, 0u8, 0u8, 0u8, 0u8] + w.image_stream@
            + w.bitmap_stream@);
        (w, info)
    }
}

impl ArchiveWriter {
    /// Appends the compressed `metadata`, the serialised metadata record, and
    /// writes its offset into the header.
    pub fn complete(self, metadata: &Vec<u8>) -> (r: Vec<u8>)
        requires
            self.wf(),
        ensures
            r@ == archive_layout(self.image_stream(), self.bitmap_stream(), compressed(metadata@)),
            8 + self.image_stream().len() + self.bitmap_stream().len() <= u64::MAX,
    {
        let mut archive = self.archive;
        let ghost before = archive@;
        let metadata_start = archive.len() as u64;
        let compressed_metadata = compress_buffer(metadata);
        append_bytes(&mut archive, &compressed_metadata);
        let header = u64_to_u8_buf_little_endian(metadata_start);
        let mut i: usize = 0;
        while i < 8
            invariant
                i <= 8,
                archive@.len() == before.len() + compressed_metadata@.len(),
                before.len() >= 8,
                header@ == le_bytes(metadata_start),
                forall|k: int| 0 <= k < i ==> archive@[k] == header@[k],
                forall|k: int| 8 <= k < archive@.len() ==> archive@[k] == (before + compressed_metadata@)[k],
            decreases 8 - i,
        {
            archive.set(i, header[i]);
            i = i + 1;
        }
        assert(archive@ =~= archive_layout(
            self.image_stream@,
            self.bitmap_stream@,
            compressed(metadata@),
        ));
        archive
    }
}

/// The metadata offset in the header of `archive`.
pub open spec fn metadata_start_of(archive: Seq<u8>) -> u64 {
    le_value(archive.subrange(0, 8))
}

/// The header of `archive` points inside it, past itself.
pub open spec fn header_valid(archive: Seq<u8>) -> bool {
    &&& archive.len() >= 8
    &&& 8 <= metadata_start_of(archive) <= archive.len()
}

/// Reads the header of `archive`; `MalformedArchive` where it is missing or
/// points outside the archive.
fn read_header(archive: &[u8]) -> (r: Result<usize, ArchiveError>)
    ensures
        header_valid(archive@) ==> r == Ok::<usize, ArchiveError>(metadata_start_of(archive@) as usize),
        !header_valid(archive@) ==> r == Err::<usize, ArchiveError>(ArchiveError::MalformedArchive),
        r matches Ok(m) ==> m == metadata_start_of(archive@),
{
    if archive.len() < FILE_FORMAT_HEADER_LENGTH {
        return Err(ArchiveError::MalformedArchive);
    }
    let header: [u8; 8] = [
        archive[0],
        archive[1],
        archive[2],
        archive[3],
        archive[4],
        archive[5],
        archive[6],
        archive[7],
    ];
    assert(header@ =~= archive@.subrange(0, 8));
    let metadata_start = u8_buf_to_u64_little_endian(&header);
    if metadata_start < 8 || metadata_start > archive.len() as u64 {
        return Err(ArchiveError::MalformedArchive);
    }
    Ok(metadata_start as usize)
}

/// The serialised metadata record of `archive`: the decompressed bytes from
/// the metadata offset to the end. `MalformedArchive` where the header is
/// missing or points outside the archive, or the metadata does not
/// decompress.
pub fn read_metadata(archive: &[u8]) -> (r: Result<Vec<u8>, ArchiveError>)
    ensures
        !header_valid(archive@) ==> r == Err::<Vec<u8>, ArchiveError>(ArchiveError::MalformedArchive),
        r is Err ==> r == Err::<Vec<u8>, ArchiveError>(ArchiveError::MalformedArchive),
        forall|s: Seq<u8>|
            header_valid(archive@) && archive@.subrange(
                metadata_start_of(archive@) as int,
                archive@.len() as int,
            ) == #[trigger] compressed(s) ==> (r matches Ok(v) && v@ == s),
{
    let m = match read_header(archive) {
        Ok(m) => m,
        Err(e) => {
            return Err(e);
        },
    };
    match decompress_buffer(&archive[m..archive.len()]) {
        Some(v) => Ok(v),
        None => Err(ArchiveError::MalformedArchive),
    }
}

/// A decoder over the image data and bitmap streams of `archive`, whose
/// bitmap stream starts at `bitmap_data_start`. `MalformedArchive` where the
/// header is missing or points outside the archive, the bitmap stream does
/// not lie between the header and the metadata, or a stream does not
/// decompress.
pub fn open_streams(archive: &[u8], bitmap_data_start: u64) -> (r: Result<DeltaDecoder, ArchiveError>)
    ensures
        !(header_valid(archive@) && 8 <= bitmap_data_start <= metadata_start_of(archive@)) ==> r
            is Err,
        r is Err ==> (r matches Err(e) && e == ArchiveError::MalformedArchive),
        r matches Ok(d) ==> d.wf() && d.prev() == empty_raster() && d.bitmap_pos() == 0
            && d.data_pos() == 0,
        forall|image_data: Seq<u8>, bitmap: Seq<u8>|
            header_valid(archive@) && 8 <= bitmap_data_start <= metadata_start_of(archive@)
                && archive@.subrange(8, bitmap_data_start as int) == #[trigger] compressed(image_data)
                && archive@.subrange(bitmap_data_start as int, metadata_start_of(archive@) as int)
                == #[trigger] compressed(bitmap) ==> (r matches Ok(d) && d.image_data() == image_data
                && d.bitmap() == bitmap),
{
    let m = match read_header(archive) {
        Ok(m) => m,
        Err(e) => {
            return Err(e);
        },
    };
    assert(m as int == metadata_start_of(archive@));
    if bitmap_data_start < 8 || bitmap_data_start > m as u64 {
        return Err(ArchiveError::MalformedArchive);
    }
    let a = bitmap_data_start as usize;
    let bitmap_region = &archive[a..m];
    let image_region = &archive[FILE_FORMAT_HEADER_LENGTH..a];
    let bitmap_opt = decompress_buffer(bitmap_region);
    let image_opt = decompress_buffer(image_region);
    let (bitmap, image_data) = match (bitmap_opt, image_opt) {
        (Some(b), Some(d)) => (b, d),
        _ => {
            assert forall|image_data: Seq<u8>, bitmap: Seq<u8>|
                header_valid(archive@) && 8 <= bitmap_data_start <= metadata_start_of(archive@)
                    && archive@.subrange(8, bitmap_data_start as int) == #[trigger] compressed(
                    image_data,
                ) && archive@.subrange(bitmap_data_start as int, metadata_start_of(archive@) as int)
                    == #[trigger] compressed(bitmap) implies false by {
                assert(bitmap_region@ == compressed(bitmap));
                assert(image_region@ == compressed(image_data));
            }
            return Err(ArchiveError::MalformedArchive);
        },
    };
    let d = DeltaDecoder::new(bitmap, image_data);
    assert forall|s1: Seq<u8>, s2: Seq<u8>|
        header_valid(archive@) && 8 <= bitmap_data_start <= metadata_start_of(archive@)
            && archive@.subrange(8, bitmap_data_start as int) == #[trigger] compressed(s1)
            && archive@.subrange(bitmap_data_start as int, metadata_start_of(archive@) as int)
            == #[trigger] compressed(s2) implies d.image_data() == s1 && d.bitmap() == s2 by {
        assert(bitmap_region@ == compressed(s2));
        assert(image_region@ == compressed(s1));
    }
    Ok(d)
}

/// The archive written for `images` with serialised metadata `metadata`
/// reads back as what was written: its header is valid, its metadata region
/// is the compressed metadata, and its image data and bitmap regions, between
/// the header, `bitmap_data_start` and the metadata offset, are the
/// compressed streams of the images, which take exactly what the records call
/// for; decoding them gives the images back (`lemma_sequence_round_trip`).
pub proof fn lemma_archive_round_trip(
    images: Seq<RasterView>,
    descs: Seq<CompressedImageInfo>,
    metadata: Seq<u8>,
)
    requires
        images_fit(images),
        records_of(descs, images),
        8 + compressed(rgba_stream(images)).len() + compressed(bitmap_stream(images)).len()
            <= u64::MAX,
    ensures
        ({
            let a = compressed(rgba_stream(images));
            let b = compressed(bitmap_stream(images));
            let archive = archive_layout(a, b, compressed(metadata));
            let bitmap_data_start = 8 + a.len();
            &&& header_valid(archive)
            &&& 8 <= bitmap_data_start <= metadata_start_of(archive)
            &&& archive.subrange(metadata_start_of(archive) as int, archive.len() as int)
                == compressed(metadata)
            &&& archive.subrange(8, bitmap_data_start as int) == compressed(rgba_stream(images))
            &&& archive.subrange(bitmap_data_start as int, metadata_start_of(archive) as int)
                == compressed(bitmap_stream(images))
            &&& bitmap_stream(images).len() == bitmap_len_of(descs)
            &&& rgba_stream(images).len() == 4 * ones(bitmap_stream(images))
        }),
{
    let a = compressed(rgba_stream(images));
    let b = compressed(bitmap_stream(images));
    lemma_header_self_consistent(a, b, compressed(metadata));
    lemma_stream_balance(images, descs);
}

} // verus!
