//! The delta model: which pixels of an image differ from its predecessor,
//! and the two streams that carry them.
use crate::align::{
    get_offset_to_other_image, pixel_changed, pixel_unchanged, previous_pixel, try_get_pixel,
};
use crate::block_order::{
    block_order, lemma_block_order_coverage, lemma_traversal_fits, BlockXYIterator,
};
use crate::crop::{is_crop_of, CropRegion, Cropper};
use crate::metadata::{ArchiveError, CompressedImageInfo};
use crate::raster::{lemma_rasters_equal, rgba_bytes, transparent, Image, RasterView, Rgba};
use vstd::prelude::*;

verus! {

/// The side of the tiles in which the changed region is traversed.
pub const BLOCK_SIZE: usize = 50;

/// The raw bytes of `image` fit in memory.
pub open spec fn raster_fits(image: RasterView) -> bool {
    4 * image.width * image.height <= usize::MAX
}

/// The positions of `cur` whose pixel differs from `prev`.
pub open spec fn changed_points(cur: RasterView, prev: RasterView) -> Set<(u32, u32)> {
    Set::new(
        |p: (u32, u32)| cur.contains(p.0 as int, p.1 as int) && pixel_changed(cur, prev, p.0 as int, p.1 as int),
    )
}

/// The positions of `region`, relative to its corner, in block order.
pub open spec fn region_order(region: CropRegion) -> Seq<(u32, u32)> {
    block_order(BLOCK_SIZE as int, region.dimensions.0 as int, region.dimensions.1 as int)
}

/// The pixel at `q` of `region`, relative to its corner, differs from `prev`.
pub open spec fn changed_in_region(
    cur: RasterView,
    prev: RasterView,
    region: CropRegion,
    q: (u32, u32),
) -> bool {
    pixel_changed(cur, prev, q.0 + region.top_left.0, q.1 + region.top_left.1)
}

/// One bitmap byte for each of `coords`: 1 where the pixel changed, else 0.
pub open spec fn bitmap_of(
    cur: RasterView,
    prev: RasterView,
    region: CropRegion,
    coords: Seq<(u32, u32)>,
) -> Seq<u8> {
    coords.map_values(
        |q: (u32, u32)|
            if changed_in_region(cur, prev, region, q) {
                1u8
            } else {
                0u8
            },
    )
}

/// The RGBA bytes of those of `coords` whose pixel changed, in order.
pub open spec fn changed_rgba_of(
    cur: RasterView,
    prev: RasterView,
    region: CropRegion,
    coords: Seq<(u32, u32)>,
) -> Seq<u8>
    decreases coords.len(),
{
    if coords.len() == 0 {
        seq![]
    } else {
        let q = coords.last();
        let rest = changed_rgba_of(cur, prev, region, coords.drop_last());
        if changed_in_region(cur, prev, region, q) {
            rest + rgba_bytes(cur.pixel(q.0 + region.top_left.0, q.1 + region.top_left.1))
        } else {
            rest
        }
    }
}

/// Encodes `original_image` against `prev_image`: appends to `bitmap` one
/// byte for each position of the changed region in block order, 1 where the
/// pixel changed, and to `image_data` the RGBA of each changed pixel; returns
/// the changed region, the bounding box of the changed positions.
pub fn alt_compression_3_inner(
    original_image: &Image,
    prev_image: &Image,
    image_data: &mut Vec<u8>,
    bitmap: &mut Vec<u8>,
) -> (r: CropRegion)
    requires
        original_image@.wf(),
        prev_image@.wf(),
        raster_fits(original_image@),
    ensures
        is_crop_of(r, changed_points(original_image@, prev_image@)),
        r.top_left.0 + r.dimensions.0 <= original_image@.width,
        r.top_left.1 + r.dimensions.1 <= original_image@.height,
        final(bitmap)@ == old(bitmap)@ + bitmap_of(
            original_image@,
            prev_image@,
            r,
            region_order(r),
        ),
        final(image_data)@ == old(image_data)@ + changed_rgba_of(
            original_image@,
            prev_image@,
            r,
            region_order(r),
        ),
{
    let cur = original_image;
    let ghost cv = cur@;
    let ghost pv = prev_image@;
    let offset = get_offset_to_other_image(cur, prev_image);
    let w = cur.width();
    let h = cur.height();

    // The crop pass: every position of the image.
    let mut cropper = Cropper::new((w, h));
    let mut y: u32 = 0;
    while y < h
        invariant
            cv == cur@,
            pv == prev_image@,
            cv.wf(),
            pv.wf(),
            w == cv.width,
            h == cv.height,
            y <= h,
            offset.0 == crate::align::alignment(
                cv.width as int,
                cv.height as int,
                pv.width as int,
                pv.height as int,
            ).0,
            offset.1 == crate::align::alignment(
                cv.width as int,
                cv.height as int,
                pv.width as int,
                pv.height as int,
            ).1,
            cropper.wf(),
            cropper.dimensions() == (w, h),
            cropper.points() == changed_points(cv, pv).filter(|p: (u32, u32)| p.1 < y),
        decreases h - y,
    {
        let mut x: u32 = 0;
        while x < w
            invariant
                cv == cur@,
                pv == prev_image@,
                cv.wf(),
                pv.wf(),
                w == cv.width,
                h == cv.height,
                y < h,
                x <= w,
                offset.0 == crate::align::alignment(
                    cv.width as int,
                    cv.height as int,
                    pv.width as int,
                    pv.height as int,
                ).0,
                offset.1 == crate::align::alignment(
                    cv.width as int,
                    cv.height as int,
                    pv.width as int,
                    pv.height as int,
                ).1,
                cropper.wf(),
                cropper.dimensions() == (w, h),
                cropper.points() == changed_points(cv, pv).filter(
                    |p: (u32, u32)| p.1 < y || (p.1 == y && p.0 < x),
                ),
            decreases w - x,
        {
            let ghost before = cropper.points();
            if !pixel_unchanged(cur, prev_image, offset, x, y) {
                cropper.add_nonzero_pixel(x, y);
            }
            assert(cropper.points() =~= changed_points(cv, pv).filter(
                |p: (u32, u32)| p.1 < y || (p.1 == y && p.0 < x + 1),
            ));
            x = x + 1;
        }
        assert(cropper.points() =~= changed_points(cv, pv).filter(|p: (u32, u32)| p.1 < y + 1));
        y = y + 1;
    }
    assert(cropper.points() =~= changed_points(cv, pv));
    let region = cropper.get_crop_region();

    // The emit pass: the changed region in block order.
    let (rx, ry) = region.top_left;
    let (rw, rh) = region.dimensions;
    proof {
        assert(4 * rw * rh <= 4 * w * h) by (nonlinear_arith)
            requires
                rw <= w,
                rh <= h,
        ;
        lemma_traversal_fits(rw as int, rh as int);
    }
    let mut it = BlockXYIterator::new(BLOCK_SIZE, (rw as usize, rh as usize));
    let ghost bitmap_start = bitmap@;
    let ghost data_start = image_data@;
    loop
        invariant
            cv == cur@,
            pv == prev_image@,
            cv.wf(),
            pv.wf(),
            w == cv.width,
            h == cv.height,
            rx + rw <= w,
            ry + rh <= h,
            region.top_left == (rx, ry),
            region.dimensions == (rw, rh),
            offset.0 == crate::align::alignment(
                cv.width as int,
                cv.height as int,
                pv.width as int,
                pv.height as int,
            ).0,
            offset.1 == crate::align::alignment(
                cv.width as int,
                cv.height as int,
                pv.width as int,
                pv.height as int,
            ).1,
            it.wf(),
            it.block() == BLOCK_SIZE,
            it.width() == rw,
            it.height() == rh,
            bitmap_start == old(bitmap)@,
            data_start == old(image_data)@,
            bitmap@ == bitmap_start + bitmap_of(cv, pv, region, it.produced()),
            image_data@ == data_start + changed_rgba_of(cv, pv, region, it.produced()),
        ensures
            bitmap@ == bitmap_start + bitmap_of(cv, pv, region, region_order(region)),
            image_data@ == data_start + changed_rgba_of(cv, pv, region, region_order(region)),
        decreases it.steps_left(),
    {
        let ghost produced = it.produced();
        match it.next() {
            None => {
                break ;
            },
            Some((xr, yr)) => {
                let x = xr + rx;
                let y = yr + ry;
                let ghost q = (xr, yr);
                assert(it.produced().drop_last() == produced);
                if pixel_unchanged(cur, prev_image, offset, x, y) {
                    bitmap.push(0u8);
                } else {
                    bitmap.push(1u8);
                    let p = cur.get_pixel(x, y);
                    image_data.push(p.r);
                    image_data.push(p.g);
                    image_data.push(p.b);
                    image_data.push(p.a);
                    assert(image_data@ =~= data_start + changed_rgba_of(
                        cv,
                        pv,
                        region,
                        produced,
                    ) + rgba_bytes(p));
                }
                assert(bitmap_of(cv, pv, region, it.produced()) =~= bitmap_of(
                    cv,
                    pv,
                    region,
                    produced,
                ).push(
                    if changed_in_region(cv, pv, region, q) {
                        1u8
                    } else {
                        0u8
                    },
                ));
                assert(bitmap@ =~= bitmap_start + bitmap_of(cv, pv, region, it.produced()));
                assert(image_data@ =~= data_start + changed_rgba_of(
                    cv,
                    pv,
                    region,
                    it.produced(),
                ));
            },
        }
    }
    region
}


/// How many of `bits` are 1.
pub open spec fn ones(bits: Seq<u8>) -> nat
    decreases bits.len(),
{
    if bits.len() == 0 {
        0
    } else {
        ones(bits.drop_last()) + if bits.last() == 1 {
            1nat
        } else {
            0nat
        }
    }
}

/// The pixel stored at `data[i..i + 4]`.
pub open spec fn pixel_at(data: Seq<u8>, i: int) -> Rgba {
    Rgba { r: data[i], g: data[i + 1], b: data[i + 2], a: data[i + 3] }
}

/// A `width × height` raster holding the pixels of `prev` where they share
/// their place with its positions, and transparent black elsewhere.
pub open spec fn base_raster(width: u32, height: u32, prev: RasterView) -> RasterView {
    RasterView {
        width,
        height,
        pixels: Seq::new(
            (width * height) as nat,
            |k: int|
                match previous_pixel(width as int, height as int, prev, k % width as int, k / width as int) {
                    Some(p) => p,
                    None => transparent(),
                },
        ),
    }
}

/// `base` with the changes of the first `coords.len()` positions of `region`
/// applied: where bit `k` is 1, the position `coords[k]` of the region takes
/// the pixel stored after the RGBA of the earlier changed pixels.
pub open spec fn apply_changes(
    base: RasterView,
    region: CropRegion,
    coords: Seq<(u32, u32)>,
    bits: Seq<u8>,
    data: Seq<u8>,
) -> RasterView
    decreases coords.len(),
{
    if coords.len() == 0 {
        base
    } else {
        let k = coords.len() - 1;
        let r = apply_changes(base, region, coords.drop_last(), bits, data);
        if bits[k] == 1 {
            r.with_pixel(
                coords[k].0 + region.top_left.0,
                coords[k].1 + region.top_left.1,
                pixel_at(data, (4 * ones(bits.subrange(0, k))) as int),
            )
        } else {
            r
        }
    }
}

/// The changed region that `desc` records.
pub open spec fn region_of(desc: &CompressedImageInfo) -> CropRegion {
    CropRegion { top_left: (desc.x, desc.y), dimensions: (desc.diff_width, desc.diff_height) }
}

/// The image that `desc` describes, over `prev`, from its bitmap bytes `bits`
/// and the image data `data` that follows the earlier images'.
pub open spec fn decoded_image(
    desc: &CompressedImageInfo,
    prev: RasterView,
    bits: Seq<u8>,
    data: Seq<u8>,
) -> RasterView {
    apply_changes(
        base_raster(desc.output_width, desc.output_height, prev),
        region_of(desc),
        region_order(region_of(desc)),
        bits,
        data,
    )
}

/// `desc` describes a changed region inside an image whose raw bytes fit in
/// memory.
pub open spec fn descriptor_fits(desc: &CompressedImageInfo) -> bool {
    &&& desc.x + desc.diff_width <= desc.output_width
    &&& desc.y + desc.diff_height <= desc.output_height
    &&& 4 * desc.output_width * desc.output_height <= usize::MAX
}


/// `ones` of a longer prefix counts the ones of the shorter.
proof fn lemma_ones_push(bits: Seq<u8>, k: int)
    requires
        0 <= k < bits.len(),
    ensures
        ones(bits.subrange(0, k + 1)) == ones(bits.subrange(0, k)) + if bits[k] == 1 {
            1nat
        } else {
            0nat
        },
{
    assert(bits.subrange(0, k + 1).drop_last() =~= bits.subrange(0, k));
}

/// `ones` never decreases along the prefixes of `bits`.
proof fn lemma_ones_monotone(bits: Seq<u8>, j: int, k: int)
    requires
        0 <= j <= k <= bits.len(),
    ensures
        ones(bits.subrange(0, j)) <= ones(bits.subrange(0, k)),
    decreases k - j,
{
    if j < k {
        lemma_ones_push(bits, k - 1);
        lemma_ones_monotone(bits, j, k - 1);
    }
}

/// Decodes the image that `desc` describes over `prev`, reading its bitmap
/// bytes from `bitmap` at `*bitmap_pos` and the RGBA of its changed pixels
/// from `image_data` at `*data_pos`, and moves both positions past what it
/// read. Fails with `MalformedArchive` where the changed region does not lie
/// inside the image or the image is too large for memory, and with
/// `StreamExhausted` where a stream ends too early.
pub fn decode_image(
    desc: &CompressedImageInfo,
    prev: &Image,
    bitmap: &[u8],
    bitmap_pos: &mut usize,
    image_data: &[u8],
    data_pos: &mut usize,
) -> (r: Result<Image, ArchiveError>)
    requires
        prev@.wf(),
        *old(bitmap_pos) <= bitmap@.len(),
        *old(data_pos) <= image_data@.len(),
    ensures
        !descriptor_fits(desc) ==> r == Err::<Image, ArchiveError>(ArchiveError::MalformedArchive),
        descriptor_fits(desc) ==> {
            let n = desc.diff_width * desc.diff_height;
            let bits = bitmap@.subrange(*old(bitmap_pos) as int, *old(bitmap_pos) + n);
            let data = image_data@.subrange(*old(data_pos) as int, image_data@.len() as int);
            if *old(bitmap_pos) + n > bitmap@.len() || 4 * ones(bits) > data.len() {
                r == Err::<Image, ArchiveError>(ArchiveError::StreamExhausted)
            } else {
                &&& r matches Ok(img) && img@ == decoded_image(desc, prev@, bits, data) && img@.wf()
                &&& *final(bitmap_pos) == *old(bitmap_pos) + n
                &&& *final(data_pos) == *old(data_pos) + 4 * ones(bits)
            }
        },
{
    let ow = desc.output_width;
    let oh = desc.output_height;
    let rx = desc.x;
    let ry = desc.y;
    let rw = desc.diff_width;
    let rh = desc.diff_height;
    if rx as u64 + rw as u64 > ow as u64 || ry as u64 + rh as u64 > oh as u64 {
        return Err(ArchiveError::MalformedArchive);
    }
    proof {
        assert(ow * oh <= u64::MAX) by (nonlinear_arith)
            requires
                ow <= u32::MAX,
                oh <= u32::MAX,
        ;
    }
    let area = ow as u64 * oh as u64;
    if area > (usize::MAX / 4) as u64 {
        proof {
            vstd::arithmetic::div_mod::lemma_fundamental_div_mod(usize::MAX as int, 4);
            vstd::arithmetic::div_mod::lemma_mod_bound(usize::MAX as int, 4);
            assert(4 * ow * oh == 4 * (ow * oh)) by (nonlinear_arith);
        }
        return Err(ArchiveError::MalformedArchive);
    }
    proof {
        assert(4 * ow * oh == 4 * (ow * oh)) by (nonlinear_arith);
        vstd::arithmetic::div_mod::lemma_fundamental_div_mod(usize::MAX as int, 4);
        assert(descriptor_fits(desc));
        assert(rw * rh <= ow * oh) by (nonlinear_arith)
            requires
                rw <= ow,
                rh <= oh,
        ;
    }
    let n = rw as usize * rh as usize;
    if bitmap.len() - *bitmap_pos < n {
        return Err(ArchiveError::StreamExhausted);
    }
    let ghost bpos = *bitmap_pos as int;
    let ghost dpos = *data_pos as int;
    let ghost bits = bitmap@.subrange(bpos, bpos + n);
    let ghost data = image_data@.subrange(dpos, image_data@.len() as int);
    let ghost region = region_of(desc);

    // The previous image, in place.
    let mut img = Image::new(ow, oh);
    let ghost base = base_raster(ow, oh, prev@);
    let offset = get_offset_to_other_image(&img, prev);
    assert forall|x2: int, y2: int| img@.contains(x2, y2) implies #[trigger] img@.pixel(x2, y2)
        == transparent() by {
        crate::raster::lemma_pixel_index(ow as int, oh as int, x2, y2);
    }
    let mut y: u32 = 0;
    while y < oh
        invariant
            img@.wf(),
            img@.width == ow,
            img@.height == oh,
            prev@.wf(),
            base == base_raster(ow, oh, prev@),
            y <= oh,
            offset.0 == crate::align::alignment(ow as int, oh as int, prev@.width as int, prev@.height as int).0,
            offset.1 == crate::align::alignment(ow as int, oh as int, prev@.width as int, prev@.height as int).1,
            forall|x2: int, y2: int|
                img@.contains(x2, y2) ==> #[trigger] img@.pixel(x2, y2) == if y2 < y {
                    base.pixel(x2, y2)
                } else {
                    transparent()
                },
        decreases oh - y,
    {
        let mut x: u32 = 0;
        while x < ow
            invariant
                img@.wf(),
                img@.width == ow,
                img@.height == oh,
                prev@.wf(),
                base == base_raster(ow, oh, prev@),
                y < oh,
                x <= ow,
                offset.0 == crate::align::alignment(ow as int, oh as int, prev@.width as int, prev@.height as int).0,
                offset.1 == crate::align::alignment(ow as int, oh as int, prev@.width as int, prev@.height as int).1,
                forall|x2: int, y2: int|
                    img@.contains(x2, y2) ==> #[trigger] img@.pixel(x2, y2) == if y2 < y || (y2 == y
                        && x2 < x) {
                        base.pixel(x2, y2)
                    } else {
                        transparent()
                    },
            decreases ow - x,
        {
            proof {
                lemma_base_pixel(ow, oh, prev@, x as int, y as int);
            }
            match try_get_pixel((x as i64 + offset.0, y as i64 + offset.1), prev) {
                None => {},
                Some(p) => {
                    img.put_pixel(x, y, p);
                },
            }
            x = x + 1;
        }
        y = y + 1;
    }
    proof {
        lemma_base_wf(ow, oh, prev@);
        lemma_rasters_equal(img@, base);
    }

    // The changed pixels, in block order.
    proof {
        assert(4 * rw * rh <= 4 * ow * oh) by (nonlinear_arith)
            requires
                rw <= ow,
                rh <= oh,
        ;
        lemma_traversal_fits(rw as int, rh as int);
        lemma_block_order_coverage(BLOCK_SIZE as int, rw as int, rh as int);
    }
    let mut it = BlockXYIterator::new(BLOCK_SIZE, (rw as usize, rh as usize));
    let mut k: usize = 0;
    let start = *bitmap_pos;
    loop
        invariant
            img@.wf(),
            img@.width == ow,
            img@.height == oh,
            it.wf(),
            it.block() == BLOCK_SIZE,
            it.width() == rw,
            it.height() == rh,
            rx + rw <= ow,
            ry + rh <= oh,
            region == region_of(desc),
            desc.x == rx && desc.y == ry && desc.diff_width == rw && desc.diff_height == rh,
            start == bpos,
            bpos == *old(bitmap_pos),
            bpos + n <= bitmap@.len(),
            bitmap@.len() <= usize::MAX,
            descriptor_fits(desc),
            n == rw * rh,
            bits == bitmap@.subrange(bpos, bpos + n),
            data == image_data@.subrange(dpos, image_data@.len() as int),
            dpos == *old(data_pos),
            *bitmap_pos == *old(bitmap_pos),
            k == it.produced().len(),
            it.produced().len() <= region_order(region).len(),
            it.produced() == region_order(region).subrange(0, k as int),
            region_order(region).len() == n,
            *data_pos == dpos + 4 * ones(bits.subrange(0, k as int)),
            *data_pos <= image_data@.len(),
            img@ == apply_changes(base, region, it.produced(), bits, data),
        ensures
            k == n,
            *data_pos == dpos + 4 * ones(bits),
            img@ == apply_changes(base, region, region_order(region), bits, data),
            4 * ones(bits) <= data.len(),
        decreases it.steps_left(),
    {
        let ghost produced = it.produced();
        match it.next() {
            None => {
                assert(bits.subrange(0, k as int) =~= bits);
                break ;
            },
            Some((xr, yr)) => {
                proof {
                    it.lemma_produced_prefix();
                    assert(it.produced().len() == k + 1);
                    assert(it.sequence() == region_order(region));
                    assert(k < n);
                    assert(region_order(region).subrange(0, k + 1) =~= region_order(region).subrange(
                        0,
                        k as int,
                    ).push(region_order(region)[k as int]));
                }
                proof {
                    lemma_ones_push(bits, k as int);
                }
                assert(it.produced().drop_last() == produced);
                if bitmap[start + k] == 1 {
                    if image_data.len() - *data_pos < 4 {
                        proof {
                            lemma_ones_monotone(bits, k + 1, n as int);
                            assert(bits.subrange(0, n as int) =~= bits);
                            assert(bits[k as int] == 1);
                            assert(ones(bits.subrange(0, k + 1)) == ones(bits.subrange(0, k as int)) + 1);
                            assert(4 * ones(bits) > data.len());
                        }
                        return Err(ArchiveError::StreamExhausted);
                    }
                    let d = *data_pos;
                    let p = Rgba {
                        r: image_data[d],
                        g: image_data[d + 1],
                        b: image_data[d + 2],
                        a: image_data[d + 3],
                    };
                    assert(p == pixel_at(data, (4 * ones(bits.subrange(0, k as int))) as int));
                    img.put_pixel(xr + rx, yr + ry, p);
                    assert(img@ =~= apply_changes(base, region, it.produced(), bits, data));
                    *data_pos = d + 4;
                }
                k = k + 1;
            },
        }
    }
    *bitmap_pos = start + n;
    Ok(img)
}

/// The pixel of `base_raster` at `(x, y)`.
proof fn lemma_base_pixel(width: u32, height: u32, prev: RasterView, x: int, y: int)
    requires
        0 <= x < width,
        0 <= y < height,
    ensures
        base_raster(width, height, prev).pixel(x, y) == match previous_pixel(width as int, height as int, prev, x, y) {
            Some(p) => p,
            None => transparent(),
        },
{
    crate::raster::lemma_pixel_index(width as int, height as int, x, y);
    let k = y * width + x;
    vstd::arithmetic::div_mod::lemma_fundamental_div_mod_converse(k, width as int, y, x);
}

/// `base_raster` has one pixel per position.
proof fn lemma_base_wf(width: u32, height: u32, prev: RasterView)
    ensures
        base_raster(width, height, prev).wf(),
{
    assert(width * height >= 0) by (nonlinear_arith);
}


/// `desc` is the record written for `cur`, encoded with changed region `region`.
pub open spec fn describes(desc: &CompressedImageInfo, cur: RasterView, region: CropRegion) -> bool {
    &&& desc.x == region.top_left.0
    &&& desc.y == region.top_left.1
    &&& desc.diff_width == region.dimensions.0
    &&& desc.diff_height == region.dimensions.1
    &&& desc.output_width == cur.width
    &&& desc.output_height == cur.height
}

/// The bitmap of the first `k` positions is the start of the bitmap.
proof fn lemma_bitmap_prefix(
    cur: RasterView,
    prev: RasterView,
    region: CropRegion,
    coords: Seq<(u32, u32)>,
    k: int,
)
    requires
        0 <= k <= coords.len(),
    ensures
        bitmap_of(cur, prev, region, coords.subrange(0, k)) == bitmap_of(
            cur,
            prev,
            region,
            coords,
        ).subrange(0, k),
{
    assert(bitmap_of(cur, prev, region, coords.subrange(0, k)) =~= bitmap_of(
        cur,
        prev,
        region,
        coords,
    ).subrange(0, k));
}

/// The changed pixels of the first `k` positions take four bytes for each
/// 1 among their bitmap bytes.
pub(crate) proof fn lemma_changed_rgba_len(
    cur: RasterView,
    prev: RasterView,
    region: CropRegion,
    coords: Seq<(u32, u32)>,
)
    ensures
        changed_rgba_of(cur, prev, region, coords).len() == 4 * ones(
            bitmap_of(cur, prev, region, coords),
        ),
    decreases coords.len(),
{
    if coords.len() > 0 {
        lemma_changed_rgba_len(cur, prev, region, coords.drop_last());
        assert(bitmap_of(cur, prev, region, coords).drop_last() =~= bitmap_of(
            cur,
            prev,
            region,
            coords.drop_last(),
        ));
    }
}

/// The changed pixels of the first `k` positions start those of all.
proof fn lemma_changed_rgba_prefix(
    cur: RasterView,
    prev: RasterView,
    region: CropRegion,
    coords: Seq<(u32, u32)>,
    k: int,
)
    requires
        0 <= k <= coords.len(),
    ensures
        changed_rgba_of(cur, prev, region, coords.subrange(0, k)).len() <= changed_rgba_of(
            cur,
            prev,
            region,
            coords,
        ).len(),
        changed_rgba_of(cur, prev, region, coords.subrange(0, k)) == changed_rgba_of(
            cur,
            prev,
            region,
            coords,
        ).subrange(0, changed_rgba_of(cur, prev, region, coords.subrange(0, k)).len() as int),
    decreases coords.len(),
{
    if k == coords.len() {
        assert(coords.subrange(0, k) =~= coords);
        assert(changed_rgba_of(cur, prev, region, coords) =~= changed_rgba_of(
            cur,
            prev,
            region,
            coords,
        ).subrange(0, changed_rgba_of(cur, prev, region, coords).len() as int));
    } else {
        let s = coords.drop_last();
        lemma_changed_rgba_prefix(cur, prev, region, s, k);
        assert(s.subrange(0, k) =~= coords.subrange(0, k));
        let a = changed_rgba_of(cur, prev, region, coords.subrange(0, k));
        let full = changed_rgba_of(cur, prev, region, coords);
        let part = changed_rgba_of(cur, prev, region, s);
        assert(full.subrange(0, a.len() as int) =~= part.subrange(0, a.len() as int));
    }
}

/// Decoding the streams that encoding `cur` over `prev` wrote, followed by
/// any further image data, gives `cur` back; the bitmap takes one byte per
/// position of the changed region, and the image data four bytes per 1 in it.
pub proof fn lemma_decode_inverts_encode(
    cur: RasterView,
    prev: RasterView,
    region: CropRegion,
    desc: &CompressedImageInfo,
    rest: Seq<u8>,
)
    requires
        cur.wf(),
        prev.wf(),
        raster_fits(cur),
        is_crop_of(region, changed_points(cur, prev)),
        region.top_left.0 + region.dimensions.0 <= cur.width,
        region.top_left.1 + region.dimensions.1 <= cur.height,
        describes(desc, cur, region),
    ensures
        decoded_image(
            desc,
            prev,
            bitmap_of(cur, prev, region, region_order(region)),
            changed_rgba_of(cur, prev, region, region_order(region)) + rest,
        ) == cur,
        bitmap_of(cur, prev, region, region_order(region)).len() == region.dimensions.0
            * region.dimensions.1,
        changed_rgba_of(cur, prev, region, region_order(region)).len() == 4 * ones(
            bitmap_of(cur, prev, region, region_order(region)),
        ),
        descriptor_fits(desc),
{
    let (rx, ry) = region.top_left;
    let (rw, rh) = region.dimensions;
    let coords = region_order(region);
    let bits = bitmap_of(cur, prev, region, coords);
    let enc = changed_rgba_of(cur, prev, region, coords);
    let data = enc + rest;
    let base = base_raster(cur.width, cur.height, prev);
    assert(4 * rw * rh <= 4 * cur.width * cur.height) by (nonlinear_arith)
        requires
            rw <= cur.width,
            rh <= cur.height,
    ;
    lemma_traversal_fits(rw as int, rh as int);
    lemma_block_order_coverage(BLOCK_SIZE as int, rw as int, rh as int);
    lemma_changed_rgba_len(cur, prev, region, coords);
    lemma_base_wf(cur.width, cur.height, prev);
    let n = coords.len() as int;
    assert(data.subrange(enc.len() as int, data.len() as int) =~= rest);
    lemma_decoded_prefix(cur, prev, region, coords, bits, data, n);
    assert(coords.subrange(0, n) =~= coords);
    let img = apply_changes(base, region, coords, bits, data);
    assert forall|x: int, y: int| img.contains(x, y) implies img.pixel(x, y) == cur.pixel(x, y) by {
        lemma_base_pixel(cur.width, cur.height, prev, x, y);
        if pixel_changed(cur, prev, x, y) {
            let p = (x as u32, y as u32);
            assert(changed_points(cur, prev).contains(p));
            let q = ((x - rx) as u32, (y - ry) as u32);
            assert(coords.contains(q));
            let j = choose|j: int| 0 <= j < coords.len() && coords[j] == q;
            assert(coords[j].0 + rx == x && coords[j].1 + ry == y);
        }
    }
    lemma_rasters_equal(img, cur);
    assert(4 * cur.width * cur.height == 4 * (cur.width * cur.height)) by (nonlinear_arith);
}

/// After the first `k` positions, the decoded raster holds the pixels of
/// `cur` at those positions and the pixels of the base raster elsewhere.
proof fn lemma_decoded_prefix(
    cur: RasterView,
    prev: RasterView,
    region: CropRegion,
    coords: Seq<(u32, u32)>,
    bits: Seq<u8>,
    data: Seq<u8>,
    k: int,
)
    requires
        cur.wf(),
        prev.wf(),
        region.top_left.0 + region.dimensions.0 <= cur.width,
        region.top_left.1 + region.dimensions.1 <= cur.height,
        coords == region_order(region),
        forall|j: int|
            0 <= j < coords.len() ==> (#[trigger] coords[j]).0 < region.dimensions.0 && coords[j].1
                < region.dimensions.1,
        bits == bitmap_of(cur, prev, region, coords),
        data == changed_rgba_of(cur, prev, region, coords) + data.subrange(
            changed_rgba_of(cur, prev, region, coords).len() as int,
            data.len() as int,
        ),
        0 <= k <= coords.len(),
    ensures
        ({
            let img = apply_changes(
                base_raster(cur.width, cur.height, prev),
                region,
                coords.subrange(0, k),
                bits,
                data,
            );
            &&& img.wf()
            &&& img.width == cur.width
            &&& img.height == cur.height
            &&& forall|x: int, y: int|
                #![trigger img.pixel(x, y)]
                cur.contains(x, y) ==> img.pixel(x, y) == if exists|j: int|
                    0 <= j < k && coords[j].0 + region.top_left.0 == x && coords[j].1
                        + region.top_left.1 == y {
                    cur.pixel(x, y)
                } else {
                    base_raster(cur.width, cur.height, prev).pixel(x, y)
                }
        }),
    decreases k,
{
    let base = base_raster(cur.width, cur.height, prev);
    let (rx, ry) = region.top_left;
    lemma_base_wf(cur.width, cur.height, prev);
    if k == 0 {
        assert(coords.subrange(0, 0) =~= Seq::<(u32, u32)>::empty());
        let img = apply_changes(base, region, coords.subrange(0, k), bits, data);
        assert(img == base);
        assert forall|x: int, y: int| cur.contains(x, y) implies #[trigger] img.pixel(x, y)
            == if exists|j: int|
            0 <= j < k && coords[j].0 + rx == x && coords[j].1 + ry == y {
            cur.pixel(x, y)
        } else {
            base.pixel(x, y)
        } by {}
    } else {
        lemma_decoded_prefix(cur, prev, region, coords, bits, data, k - 1);
        let sub = coords.subrange(0, k);
        assert(sub.drop_last() =~= coords.subrange(0, k - 1));
        let before = apply_changes(base, region, coords.subrange(0, k - 1), bits, data);
        let img = apply_changes(base, region, sub, bits, data);
        let q = coords[k - 1];
        let qx = q.0 + rx;
        let qy = q.1 + ry;
        assert(cur.contains(qx, qy));
        lemma_base_pixel(cur.width, cur.height, prev, qx, qy);
        if bits[k - 1] == 1 {
            assert(changed_in_region(cur, prev, region, q));
            let o = (4 * ones(bits.subrange(0, k - 1))) as int;
            lemma_bitmap_prefix(cur, prev, region, coords, k - 1);
            lemma_bitmap_prefix(cur, prev, region, coords, k);
            lemma_changed_rgba_len(cur, prev, region, coords.subrange(0, k - 1));
            lemma_changed_rgba_prefix(cur, prev, region, coords, k);
            let enc_k = changed_rgba_of(cur, prev, region, sub);
            assert(enc_k == changed_rgba_of(cur, prev, region, coords.subrange(0, k - 1))
                + rgba_bytes(cur.pixel(qx, qy)));
            assert(pixel_at(data, o) == cur.pixel(qx, qy)) by {
                let full = changed_rgba_of(cur, prev, region, coords);
                assert(data.subrange(0, full.len() as int) =~= full);
                assert(enc_k[o] == data[o]);
                assert(enc_k[o + 1] == data[o + 1]);
                assert(enc_k[o + 2] == data[o + 2]);
                assert(enc_k[o + 3] == data[o + 3]);
            }
            assert(img == before.with_pixel(qx, qy, pixel_at(data, o)));
            crate::raster::lemma_pixel_index(cur.width as int, cur.height as int, qx, qy);
            assert(img.wf() && img.width == cur.width && img.height == cur.height);
            assert forall|x: int, y: int| cur.contains(x, y) implies #[trigger] img.pixel(x, y)
                == if exists|j: int|
                0 <= j < k && coords[j].0 + rx == x && coords[j].1 + ry == y {
                cur.pixel(x, y)
            } else {
                base.pixel(x, y)
            } by {
                crate::raster::lemma_pixel_index(cur.width as int, cur.height as int, x, y);
                crate::raster::lemma_pixel_index(cur.width as int, cur.height as int, qx, qy);
                if (x, y) != (qx, qy) {
                    crate::raster::lemma_pixel_index_distinct(cur.width as int, x, y, qx, qy);
                    assert(img.pixel(x, y) == before.pixel(x, y));
                    if exists|j: int| 0 <= j < k && coords[j].0 + rx == x && coords[j].1 + ry == y {
                        let j = choose|j: int|
                            0 <= j < k && coords[j].0 + rx == x && coords[j].1 + ry == y;
                        assert(j < k - 1);
                    }
                } else {
                    assert(coords[k - 1].0 + rx == x && coords[k - 1].1 + ry == y);
                }
            }
        } else {
            assert(!changed_in_region(cur, prev, region, q));
            assert(img == before);
            assert(img.wf() && img.width == cur.width && img.height == cur.height);
            assert forall|x: int, y: int| cur.contains(x, y) implies #[trigger] img.pixel(x, y)
                == if exists|j: int|
                0 <= j < k && coords[j].0 + rx == x && coords[j].1 + ry == y {
                cur.pixel(x, y)
            } else {
                base.pixel(x, y)
            } by {
                if (x, y) == (qx, qy) {
                    assert(coords[k - 1].0 + rx == x && coords[k - 1].1 + ry == y);
                } else {
                    if exists|j: int| 0 <= j < k && coords[j].0 + rx == x && coords[j].1 + ry == y {
                        let j = choose|j: int|
                            0 <= j < k && coords[j].0 + rx == x && coords[j].1 + ry == y;
                        assert(j < k - 1);
                    }
                }
            }
        }
    }
}


/// Images of one size align with no offset; where their pixels are equal too,
/// the changed region is empty and encoding writes nothing to either stream.
pub proof fn lemma_identical_images(cur: RasterView, prev: RasterView, region: CropRegion)
    requires
        cur.wf(),
        prev.wf(),
        cur.width == prev.width,
        cur.height == prev.height,
    ensures
        crate::align::alignment(
            cur.width as int,
            cur.height as int,
            prev.width as int,
            prev.height as int,
        ) == (0int, 0int),
        cur == prev && is_crop_of(region, changed_points(cur, prev)) ==> region == (CropRegion {
            top_left: (0, 0),
            dimensions: (0, 0),
        }) && bitmap_of(cur, prev, region, region_order(region)).len() == 0 && changed_rgba_of(
            cur,
            prev,
            region,
            region_order(region),
        ).len() == 0,
{
    assert(0int / 2 == 0);
    if cur == prev && is_crop_of(region, changed_points(cur, prev)) {
        assert(changed_points(cur, prev) =~= Set::<(u32, u32)>::empty()) by {
            assert forall|p: (u32, u32)| !changed_points(cur, prev).contains(p) by {
                if cur.contains(p.0 as int, p.1 as int) {
                    assert(crate::align::previous_pixel(
                        cur.width as int,
                        cur.height as int,
                        prev,
                        p.0 as int,
                        p.1 as int,
                    ) == Some(cur.pixel(p.0 as int, p.1 as int)));
                }
            }
        }
        lemma_traversal_fits(0, 0);
        lemma_block_order_coverage(BLOCK_SIZE as int, 0, 0);
        let coords = region_order(region);
        assert(coords.len() == 0);
        assert(bitmap_of(cur, prev, region, coords).len() == 0);
        assert(changed_rgba_of(cur, prev, region, coords) == Seq::<u8>::empty());
    }
}

} // verus!
