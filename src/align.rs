//! Bottom-centred alignment of an image on its predecessor.
use crate::raster::{Image, RasterView, Rgba};
use vstd::prelude::*;

verus! {

/// Half of `d`, rounded toward zero.
pub open spec fn half_toward_zero(d: int) -> int {
    if d >= 0 {
        d / 2
    } else {
        -((-d) / 2)
    }
}

/// The offset from a position of a `cur_w × cur_h` image to the position of
/// the previous `prev_w × prev_h` image that shares its place when both are
/// bottom-centred on one canvas.
pub open spec fn alignment(cur_w: int, cur_h: int, prev_w: int, prev_h: int) -> (int, int) {
    (half_toward_zero(prev_w - cur_w), prev_h - cur_h)
}

/// The pixel of `prev` that shares its place with `(x, y)` of a
/// `cur_w × cur_h` image, if that place lies inside `prev`.
pub open spec fn previous_pixel(cur_w: int, cur_h: int, prev: RasterView, x: int, y: int) -> Option<
    Rgba,
> {
    let (dx, dy) = alignment(cur_w, cur_h, prev.width as int, prev.height as int);
    if prev.contains(x + dx, y + dy) {
        Some(prev.pixel(x + dx, y + dy))
    } else {
        None
    }
}

/// The pixel at `(x, y)` of `cur` differs from `prev`: `prev` has no pixel
/// there, or another one.
pub open spec fn pixel_changed(cur: RasterView, prev: RasterView, x: int, y: int) -> bool {
    previous_pixel(cur.width as int, cur.height as int, prev, x, y) != Some(cur.pixel(x, y))
}

/// The offset from a position of `original_image` to the position of
/// `prev_image` that shares its place when both are bottom-centred.
pub fn get_offset_to_other_image(original_image: &Image, prev_image: &Image) -> (r: (i64, i64))
    ensures
        r.0 == alignment(
            original_image@.width as int,
            original_image@.height as int,
            prev_image@.width as int,
            prev_image@.height as int,
        ).0,
        r.1 == alignment(
            original_image@.width as int,
            original_image@.height as int,
            prev_image@.width as int,
            prev_image@.height as int,
        ).1,
{
    let dw = prev_image.width() as i64 - original_image.width() as i64;
    let dx = if dw >= 0 {
        dw / 2
    } else {
        -((-dw) / 2)
    };
    (dx, prev_image.height() as i64 - original_image.height() as i64)
}

/// The pixel of `prev_image` at `prev_xy`, if that lies inside it.
pub fn try_get_pixel(prev_xy: (i64, i64), prev_image: &Image) -> (r: Option<Rgba>)
    requires
        prev_image@.wf(),
    ensures
        r == (if prev_image@.contains(prev_xy.0 as int, prev_xy.1 as int) {
            Some(prev_image@.pixel(prev_xy.0 as int, prev_xy.1 as int))
        } else {
            None
        }),
{
    let (x, y) = prev_xy;
    if x < 0 || y < 0 || x >= prev_image.width() as i64 || y >= prev_image.height() as i64 {
        return None;
    }
    Some(prev_image.get_pixel(x as u32, y as u32))
}

/// Whether the pixel at `(x, y)` of `image` is the pixel that `prev` has in
/// its place, `offset` being the alignment of the two.
pub fn pixel_unchanged(image: &Image, prev: &Image, offset: (i64, i64), x: u32, y: u32) -> (r: bool)
    requires
        image@.wf(),
        prev@.wf(),
        image@.contains(x as int, y as int),
        offset.0 == alignment(
            image@.width as int,
            image@.height as int,
            prev@.width as int,
            prev@.height as int,
        ).0,
        offset.1 == alignment(
            image@.width as int,
            image@.height as int,
            prev@.width as int,
            prev@.height as int,
        ).1,
    ensures
        r == !pixel_changed(image@, prev@, x as int, y as int),
{
    let prev_xy = (x as i64 + offset.0, y as i64 + offset.1);
    match try_get_pixel(prev_xy, prev) {
        None => false,
        Some(p) => p == image.get_pixel(x, y),
    }
}

} // verus!
