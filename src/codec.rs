//! The image sequence: the encoder and decoder that carry the previous image
//! from one image to the next, and what their streams hold.
use crate::crop::{is_crop_of, CropRegion};
use crate::delta::{
    alt_compression_3_inner, bitmap_of, changed_points, changed_rgba_of, decode_image,
    decoded_image, describes, descriptor_fits, lemma_decode_inverts_encode, ones, raster_fits,
    region_of, region_order,
};
use crate::metadata::{ArchiveError, CompressedImageInfo};
use crate::raster::{empty_raster, Image, RasterView};
use vstd::prelude::*;

verus! {

/// The changed region of `cur` over `prev`: the bounding box of the
/// positions whose pixel differs.
pub open spec fn crop_of(cur: RasterView, prev: RasterView) -> CropRegion {
    choose|r: CropRegion| is_crop_of(r, changed_points(cur, prev))
}

/// The bitmap bytes that encoding `cur` over `prev` writes.
pub open spec fn image_bitmap(cur: RasterView, prev: RasterView) -> Seq<u8> {
    bitmap_of(cur, prev, crop_of(cur, prev), region_order(crop_of(cur, prev)))
}

/// The image data bytes that encoding `cur` over `prev` writes.
pub open spec fn image_rgba(cur: RasterView, prev: RasterView) -> Seq<u8> {
    changed_rgba_of(cur, prev, crop_of(cur, prev), region_order(crop_of(cur, prev)))
}

/// The image before `images[i]`: the empty raster for the first.
pub open spec fn predecessor(images: Seq<RasterView>, i: int) -> RasterView {
    if i == 0 {
        empty_raster()
    } else {
        images[i - 1]
    }
}

/// The bitmap stream of a sequence of images.
pub open spec fn bitmap_stream(images: Seq<RasterView>) -> Seq<u8>
    decreases images.len(),
{
    if images.len() == 0 {
        seq![]
    } else {
        bitmap_stream(images.drop_last()) + image_bitmap(
            images.last(),
            predecessor(images, images.len() - 1),
        )
    }
}

/// The image data stream of a sequence of images.
pub open spec fn rgba_stream(images: Seq<RasterView>) -> Seq<u8>
    decreases images.len(),
{
    if images.len() == 0 {
        seq![]
    } else {
        rgba_stream(images.drop_last()) + image_rgba(
            images.last(),
            predecessor(images, images.len() - 1),
        )
    }
}

/// Every image has one pixel per position and fits in memory.
pub open spec fn images_fit(images: Seq<RasterView>) -> bool {
    forall|i: int| 0 <= i < images.len() ==> (#[trigger] images[i]).wf() && raster_fits(images[i])
}

/// `desc` is the record of `cur` encoded over `prev`: its changed region is
/// the bounding box of the changed positions, inside `cur`.
pub open spec fn record_of(desc: &CompressedImageInfo, cur: RasterView, prev: RasterView) -> bool {
    &&& describes(desc, cur, region_of(desc))
    &&& is_crop_of(region_of(desc), changed_points(cur, prev))
    &&& desc.x + desc.diff_width <= cur.width
    &&& desc.y + desc.diff_height <= cur.height
}

/// `descs` holds the record of each of `images`, in order.
pub open spec fn records_of(descs: Seq<CompressedImageInfo>, images: Seq<RasterView>) -> bool {
    &&& descs.len() == images.len()
    &&& forall|i: int|
        0 <= i < images.len() ==> record_of(&#[trigger] descs[i], images[i], predecessor(images, i))
}

/// Two regions that are both the bounding box of one set are equal.
pub proof fn lemma_crop_unique(r1: CropRegion, r2: CropRegion, points: Set<(u32, u32)>)
    requires
        is_crop_of(r1, points),
        is_crop_of(r2, points),
    ensures
        r1 == r2,
{
    if points != Set::<(u32, u32)>::empty() {
        let a = choose|p: (u32, u32)| points.contains(p) && p.0 == r1.top_left.0;
        let b = choose|p: (u32, u32)| points.contains(p) && p.0 == r2.top_left.0;
        let c = choose|p: (u32, u32)| points.contains(p) && p.1 == r1.top_left.1;
        let d = choose|p: (u32, u32)| points.contains(p) && p.1 == r2.top_left.1;
        let e = choose|p: (u32, u32)| points.contains(p) && p.0 == r1.top_left.0 + r1.dimensions.0 - 1;
        let f = choose|p: (u32, u32)| points.contains(p) && p.0 == r2.top_left.0 + r2.dimensions.0 - 1;
        let g = choose|p: (u32, u32)| points.contains(p) && p.1 == r1.top_left.1 + r1.dimensions.1 - 1;
        let h = choose|p: (u32, u32)| points.contains(p) && p.1 == r2.top_left.1 + r2.dimensions.1 - 1;
        assert(points.contains(a) && points.contains(b) && points.contains(c) && points.contains(d));
        assert(points.contains(e) && points.contains(f) && points.contains(g) && points.contains(h));
    }
}

/// Encodes a sequence of images into a bitmap stream, an image data stream
/// and one record per image.
pub struct DeltaEncoder {
    prev: Image,
    bitmap: Vec<u8>,
    image_data: Vec<u8>,
    images_info: Vec<CompressedImageInfo>,
    encoded: Ghost<Seq<RasterView>>,
}

impl DeltaEncoder {
    /// The images encoded so far.
    pub closed spec fn images(&self) -> Seq<RasterView> {
        self.encoded@
    }

    pub closed spec fn wf(&self) -> bool {
        &&& images_fit(self.encoded@)
        &&& self.prev@ == predecessor(self.encoded@, self.encoded@.len() as int)
        &&& self.prev@.wf()
        &&& self.bitmap@ == bitmap_stream(self.encoded@)
        &&& self.image_data@ == rgba_stream(self.encoded@)
        &&& records_of(self.images_info@, self.encoded@)
    }

    /// An encoder that has encoded nothing yet.
    pub fn new() -> (r: DeltaEncoder)
        ensures
            r.wf(),
            r.images() == Seq::<RasterView>::empty(),
    {
        let prev = Image::new(0, 0);
        assert(prev@.pixels =~= empty_raster().pixels);
        DeltaEncoder {
            prev,
            bitmap: Vec::new(),
            image_data: Vec::new(),
            images_info: Vec::new(),
            encoded: Ghost(Seq::empty()),
        }
    }

    /// Encodes `image`, found at `output_path`, as the next of the sequence.
    #[verifier::rlimit(40)]
    pub fn add_image(&mut self, image: Image, output_path: String)
        requires
            old(self).wf(),
            image@.wf(),
            raster_fits(image@),
        ensures
            final(self).wf(),
            final(self).images() == old(self).images().push(image@),
            final(self).records()[final(self).records().len() - 1].output_path@ == output_path@,
    {
        let ghost before = self.encoded@;
        let ghost prev_view = self.prev@;
        let region = alt_compression_3_inner(&image, &self.prev, &mut self.image_data, &mut self.bitmap);
        let ghost images = before.push(image@);
        proof {
            lemma_crop_unique(region, crop_of(image@, prev_view), changed_points(image@, prev_view));
            assert(images.drop_last() =~= before);
            assert(predecessor(images, images.len() - 1) == prev_view);
            assert(self.bitmap@ == bitmap_stream(images));
            assert(self.image_data@ == rgba_stream(images));
        }
        let desc = CompressedImageInfo {
            start_index: 0,
            x: region.top_left.0,
            y: region.top_left.1,
            diff_width: region.dimensions.0,
            diff_height: region.dimensions.1,
            output_width: image.width(),
            output_height: image.height(),
            output_path,
        };
        self.images_info.push(desc);
        self.prev = image;
        self.encoded = Ghost(images);
        assert forall|i: int| 0 <= i < images.len() implies (#[trigger] images[i]).wf() && raster_fits(images[i]) by {
            if i < before.len() {
                assert(images[i] == before[i]);
            }
        }
        assert forall|i: int| 0 <= i < images.len() implies record_of(
            &#[trigger] self.images_info@[i],
            images[i],
            predecessor(images, i),
        ) by {
            if i < before.len() {
                assert(images[i] == before[i]);
                assert(predecessor(images, i) == predecessor(before, i));
            }
        }
    }

    /// The records of the images encoded so far.
    pub closed spec fn records(&self) -> Seq<CompressedImageInfo> {
        self.images_info@
    }

    /// The bitmap stream, the image data stream and the records.
    pub fn into_parts(self) -> (r: (Vec<u8>, Vec<u8>, Vec<CompressedImageInfo>))
        requires
            self.wf(),
        ensures
            r.0@ == bitmap_stream(self.images()),
            r.1@ == rgba_stream(self.images()),
            r.2@ == self.records(),
            records_of(r.2@, self.images()),
    {
        (self.bitmap, self.image_data, self.images_info)
    }
}


/// The number of bitmap bytes that `descs` call for: one per position of
/// each changed region.
pub open spec fn bitmap_len_of(descs: Seq<CompressedImageInfo>) -> nat
    decreases descs.len(),
{
    if descs.len() == 0 {
        0
    } else {
        bitmap_len_of(descs.drop_last()) + (descs.last().diff_width * descs.last().diff_height) as nat
    }
}

/// `ones` of two streams one after the other is the sum of their `ones`.
pub proof fn lemma_ones_concat(a: Seq<u8>, b: Seq<u8>)
    ensures
        ones(a + b) == ones(a) + ones(b),
    decreases b.len(),
{
    if b.len() > 0 {
        lemma_ones_concat(a, b.drop_last());
        assert((a + b).drop_last() =~= a + b.drop_last());
    } else {
        assert(a + b =~= a);
    }
}

/// The streams of the first `k + 1` images are those of the first `k`
/// followed by what encoding image `k` writes.
proof fn lemma_streams_step(images: Seq<RasterView>, k: int)
    requires
        0 <= k < images.len(),
    ensures
        bitmap_stream(images.take(k + 1)) == bitmap_stream(images.take(k)) + image_bitmap(
            images[k],
            predecessor(images, k),
        ),
        rgba_stream(images.take(k + 1)) == rgba_stream(images.take(k)) + image_rgba(
            images[k],
            predecessor(images, k),
        ),
{
    assert(images.take(k + 1).drop_last() =~= images.take(k));
    assert(predecessor(images.take(k + 1), k) == predecessor(images, k));
}

/// The streams of the first `k` images start the streams of all.
proof fn lemma_streams_prefix(images: Seq<RasterView>, k: int)
    requires
        0 <= k <= images.len(),
    ensures
        bitmap_stream(images) == bitmap_stream(images.take(k)) + bitmap_stream(images).subrange(
            bitmap_stream(images.take(k)).len() as int,
            bitmap_stream(images).len() as int,
        ),
        rgba_stream(images) == rgba_stream(images.take(k)) + rgba_stream(images).subrange(
            rgba_stream(images.take(k)).len() as int,
            rgba_stream(images).len() as int,
        ),
    decreases images.len() - k,
{
    if k == images.len() {
        assert(images.take(k) =~= images);
        assert(bitmap_stream(images) =~= bitmap_stream(images) + bitmap_stream(images).subrange(
            bitmap_stream(images).len() as int,
            bitmap_stream(images).len() as int,
        ));
        assert(rgba_stream(images) =~= rgba_stream(images) + rgba_stream(images).subrange(
            rgba_stream(images).len() as int,
            rgba_stream(images).len() as int,
        ));
    } else {
        lemma_streams_prefix(images, k + 1);
        lemma_streams_step(images, k);
        let a = bitmap_stream(images.take(k));
        let full = bitmap_stream(images);
        assert(full =~= a + full.subrange(a.len() as int, full.len() as int));
        let c = rgba_stream(images.take(k));
        let rfull = rgba_stream(images);
        assert(rfull =~= c + rfull.subrange(c.len() as int, rfull.len() as int));
    }
}

/// Where the streams of image `i` lie in the streams of the sequence.
proof fn lemma_stream_slices(images: Seq<RasterView>, i: int)
    requires
        0 <= i < images.len(),
    ensures
        ({
            let bits = bitmap_stream(images);
            let data = rgba_stream(images);
            let b0 = bitmap_stream(images.take(i)).len() as int;
            let b1 = bitmap_stream(images.take(i + 1)).len() as int;
            let d0 = rgba_stream(images.take(i)).len() as int;
            let d1 = rgba_stream(images.take(i + 1)).len() as int;
            let ib = image_bitmap(images[i], predecessor(images, i));
            let ir = image_rgba(images[i], predecessor(images, i));
            &&& b1 == b0 + ib.len()
            &&& b1 <= bits.len()
            &&& bits.subrange(b0, b1) == ib
            &&& d1 == d0 + ir.len()
            &&& d1 <= data.len()
            &&& data.subrange(d0, data.len() as int) == ir + data.subrange(d1, data.len() as int)
        }),
{
    lemma_streams_step(images, i);
    lemma_streams_prefix(images, i + 1);
    let bits = bitmap_stream(images);
    let data = rgba_stream(images);
    let b0 = bitmap_stream(images.take(i)).len() as int;
    let b1 = bitmap_stream(images.take(i + 1)).len() as int;
    let d1 = rgba_stream(images.take(i + 1)).len() as int;
    let d0 = rgba_stream(images.take(i)).len() as int;
    let ib = image_bitmap(images[i], predecessor(images, i));
    let ir = image_rgba(images[i], predecessor(images, i));
    assert(bits.subrange(0, b1) =~= bitmap_stream(images.take(i + 1)));
    assert(bits.subrange(b0, b1) =~= ib);
    assert(data.subrange(0, d1) =~= rgba_stream(images.take(i + 1)));
    assert(data.subrange(d0, data.len() as int) =~= ir + data.subrange(d1, data.len() as int));
}

/// Decoding, over the previous image, the record of image `i` from the
/// streams of the whole sequence, at the ends of what the earlier images
/// took, gives image `i` back, and takes exactly what encoding it wrote.
pub proof fn lemma_sequence_round_trip(
    images: Seq<RasterView>,
    descs: Seq<CompressedImageInfo>,
    i: int,
)
    requires
        images_fit(images),
        records_of(descs, images),
        0 <= i < images.len(),
    ensures
        ({
            let bits = bitmap_stream(images);
            let data = rgba_stream(images);
            let b0 = bitmap_stream(images.take(i)).len() as int;
            let b1 = bitmap_stream(images.take(i + 1)).len() as int;
            let d0 = rgba_stream(images.take(i)).len() as int;
            let d1 = rgba_stream(images.take(i + 1)).len() as int;
            &&& descriptor_fits(&descs[i])
            &&& b1 == b0 + descs[i].diff_width * descs[i].diff_height
            &&& b1 <= bits.len()
            &&& d1 == d0 + 4 * ones(bits.subrange(b0, b1))
            &&& d1 <= data.len()
            &&& decoded_image(
                &descs[i],
                predecessor(images, i),
                bits.subrange(b0, b1),
                data.subrange(d0, data.len() as int),
            ) == images[i]
        }),
{
    let prev = predecessor(images, i);
    let cur = images[i];
    assert(prev.wf()) by {
        if i > 0 {
            assert(images[i - 1].wf());
            assert(prev == images[i - 1]);
        } else {
            assert(prev == empty_raster());
            assert(0u32 * 0u32 == 0);
        }
    }
    assert(cur.wf() && raster_fits(cur));
    let desc = descs[i];
    assert(record_of(&desc, cur, prev));
    let region = region_of(&desc);
    lemma_crop_unique(region, crop_of(cur, prev), changed_points(cur, prev));
    lemma_stream_slices(images, i);
    let data = rgba_stream(images);
    let d1 = rgba_stream(images.take(i + 1)).len() as int;
    lemma_decode_inverts_encode(cur, prev, region, &desc, data.subrange(d1, data.len() as int));
}


/// The streams take exactly what the records call for: one bitmap byte per
/// position of each changed region, and four image data bytes per 1 in the
/// bitmap.
pub proof fn lemma_stream_balance(images: Seq<RasterView>, descs: Seq<CompressedImageInfo>)
    requires
        images_fit(images),
        records_of(descs, images),
    ensures
        bitmap_stream(images).len() == bitmap_len_of(descs),
        rgba_stream(images).len() == 4 * ones(bitmap_stream(images)),
    decreases images.len(),
{
    if images.len() > 0 {
        let n = images.len() - 1;
        let front = images.drop_last();
        let dfront = descs.drop_last();
        assert(images_fit(front)) by {
            assert forall|i: int| 0 <= i < front.len() implies (#[trigger] front[i]).wf()
                && raster_fits(front[i]) by {
                assert(front[i] == images[i]);
            }
        }
        assert(records_of(dfront, front)) by {
            assert forall|i: int| 0 <= i < front.len() implies record_of(
                &#[trigger] dfront[i],
                front[i],
                predecessor(front, i),
            ) by {
                assert(front[i] == images[i]);
                assert(dfront[i] == descs[i]);
                assert(predecessor(front, i) == predecessor(images, i));
                assert(record_of(&descs[i], images[i], predecessor(images, i)));
            }
        }
        lemma_stream_balance(front, dfront);
        lemma_sequence_round_trip(images, descs, n);
        assert(images.take(n) =~= front);
        assert(images.take(n + 1) =~= images);
        lemma_stream_slices(images, n);
        let ib = image_bitmap(images[n], predecessor(images, n));
        lemma_ones_concat(bitmap_stream(front), ib);
        let prev = predecessor(images, n);
        let region = region_of(&descs[n]);
        assert(record_of(&descs[n], images[n], prev));
        lemma_crop_unique(region, crop_of(images[n], prev), changed_points(images[n], prev));
        crate::delta::lemma_changed_rgba_len(images[n], prev, region, region_order(region));
    }
}

/// Decodes a sequence of images from its bitmap stream and image data
/// stream, one record at a time.
pub struct DeltaDecoder {
    prev: Image,
    bitmap: Vec<u8>,
    bitmap_pos: usize,
    image_data: Vec<u8>,
    data_pos: usize,
}

impl DeltaDecoder {
    /// The image decoded last; the empty raster before the first.
    pub closed spec fn prev(&self) -> RasterView {
        self.prev@
    }

    pub closed spec fn bitmap(&self) -> Seq<u8> {
        self.bitmap@
    }

    pub closed spec fn image_data(&self) -> Seq<u8> {
        self.image_data@
    }

    /// How much of the bitmap stream has been read.
    pub closed spec fn bitmap_pos(&self) -> nat {
        self.bitmap_pos as nat
    }

    /// How much of the image data stream has been read.
    pub closed spec fn data_pos(&self) -> nat {
        self.data_pos as nat
    }

    pub closed spec fn wf(&self) -> bool {
        &&& self.prev@.wf()
        &&& self.bitmap_pos <= self.bitmap@.len()
        &&& self.data_pos <= self.image_data@.len()
    }

    /// A decoder at the start of `bitmap` and `image_data`.
    pub fn new(bitmap: Vec<u8>, image_data: Vec<u8>) -> (r: DeltaDecoder)
        ensures
            r.wf(),
            r.prev() == empty_raster(),
            r.bitmap() == bitmap@,
            r.image_data() == image_data@,
            r.bitmap_pos() == 0,
            r.data_pos() == 0,
    {
        let prev = Image::new(0, 0);
        assert(prev@.pixels =~= empty_raster().pixels);
        DeltaDecoder { prev, bitmap, bitmap_pos: 0, image_data, data_pos: 0 }
    }

    /// Decodes the next image, which `desc` describes; it becomes the
    /// previous image of the one after.
    pub fn decode_next(&mut self, desc: &CompressedImageInfo) -> (r: Result<Image, ArchiveError>)
        requires
            old(self).wf(),
        ensures
            final(self).wf(),
            final(self).bitmap() == old(self).bitmap(),
            final(self).image_data() == old(self).image_data(),
            !descriptor_fits(desc) ==> r == Err::<Image, ArchiveError>(ArchiveError::MalformedArchive),
            descriptor_fits(desc) ==> {
                let n = desc.diff_width * desc.diff_height;
                let bits = old(self).bitmap().subrange(
                    old(self).bitmap_pos() as int,
                    old(self).bitmap_pos() + n,
                );
                let data = old(self).image_data().subrange(
                    old(self).data_pos() as int,
                    old(self).image_data().len() as int,
                );
                if old(self).bitmap_pos() + n > old(self).bitmap().len() || 4 * ones(bits)
                    > data.len() {
                    r == Err::<Image, ArchiveError>(ArchiveError::StreamExhausted)
                } else {
                    &&& r matches Ok(img) && img@ == decoded_image(desc, old(self).prev(), bits, data)
                    &&& final(self).prev() == decoded_image(desc, old(self).prev(), bits, data)
                    &&& final(self).bitmap_pos() == old(self).bitmap_pos() + n
                    &&& final(self).data_pos() == old(self).data_pos() + 4 * ones(bits)
                }
            },
    {
        let mut bitmap_pos = self.bitmap_pos;
        let mut data_pos = self.data_pos;
        let r = decode_image(
            desc,
            &self.prev,
            self.bitmap.as_slice(),
            &mut bitmap_pos,
            self.image_data.as_slice(),
            &mut data_pos,
        );
        match r {
            Ok(img) => {
                self.prev = img.duplicate();
                self.bitmap_pos = bitmap_pos;
                self.data_pos = data_pos;
                Ok(img)
            },
            Err(e) => Err(e),
        }
    }

    /// Whether both streams have been read to their ends.
    pub fn is_finished(&self) -> (r: bool)
        ensures
            r == (self.bitmap_pos() == self.bitmap().len() && self.data_pos()
                == self.image_data().len()),
    {
        self.bitmap_pos == self.bitmap.len() && self.data_pos == self.image_data.len()
    }
}

} // verus!
