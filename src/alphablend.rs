//! The alphablend layout: a colour image on the left and its inverted alpha
//! as grey on the right, twice as wide as the image.
use crate::raster::{transparent, Image, RasterView, Rgba};
use vstd::prelude::*;

verus! {

/// The pixel at `(x, y)` of the alphablend form of `img`: the colour of
/// `img` on the left half, and grey of `255 − alpha` on the right half, all
/// opaque.
pub open spec fn alphablend_pixel(img: RasterView, x: int, y: int) -> Rgba {
    if x < img.width {
        let p = img.pixel(x, y);
        Rgba { r: p.r, g: p.g, b: p.b, a: 255 }
    } else {
        let v = (255 - img.pixel(x - img.width, y).a) as u8;
        Rgba { r: v, g: v, b: v, a: 255 }
    }
}

/// The pixel at `(x, y)` of the image that the alphablend form `img` holds:
/// the colour of the left half, with alpha `255 −` the red of the matching
/// pixel of the right half.
pub open spec fn transparent_pixel(img: RasterView, x: int, y: int) -> Rgba {
    let p = img.pixel(x, y);
    Rgba { r: p.r, g: p.g, b: p.b, a: (255 - img.pixel(x + img.width / 2, y).r) as u8 }
}

/// The alphablend form of `img`, twice as wide.
pub fn to_alphablend(img: &Image) -> (r: Image)
    requires
        img@.wf(),
        2 * img@.width <= u32::MAX,
        2 * img@.width * img@.height <= usize::MAX,
    ensures
        r@.wf(),
        r@.width == 2 * img@.width,
        r@.height == img@.height,
        forall|x: int, y: int| r@.contains(x, y) ==> #[trigger] r@.pixel(x, y) == alphablend_pixel(img@, x, y),
{
    let w = img.width();
    let h = img.height();
    let mut out = Image::new(2 * w, h);
    assert forall|x2: int, y2: int| out@.contains(x2, y2) implies #[trigger] out@.pixel(x2, y2)
        == transparent() by {
        crate::raster::lemma_pixel_index(2 * w as int, h as int, x2, y2);
    }
    let mut y: u32 = 0;
    while y < h
        invariant
            img@.wf(),
            w == img@.width,
            h == img@.height,
            2 * w <= u32::MAX,
            out@.wf(),
            out@.width == 2 * w,
            out@.height == h,
            y <= h,
            forall|x2: int, y2: int|
                out@.contains(x2, y2) ==> #[trigger] out@.pixel(x2, y2) == if y2 < y {
                    alphablend_pixel(img@, x2, y2)
                } else {
                    transparent()
                },
        decreases h - y,
    {
        let mut x: u32 = 0;
        while x < 2 * w
            invariant
                img@.wf(),
                w == img@.width,
                h == img@.height,
                2 * w <= u32::MAX,
                out@.wf(),
                out@.width == 2 * w,
                out@.height == h,
                y < h,
                x <= 2 * w,
                forall|x2: int, y2: int|
                    out@.contains(x2, y2) ==> #[trigger] out@.pixel(x2, y2) == if y2 < y || (y2
                        == y && x2 < x) {
                        alphablend_pixel(img@, x2, y2)
                    } else {
                        transparent()
                    },
            decreases 2 * w - x,
        {
            let p = if x < w {
                let c = img.get_pixel(x, y);
                Rgba { r: c.r, g: c.g, b: c.b, a: 255 }
            } else {
                let v = 255 - img.get_pixel(x - w, y).a;
                Rgba { r: v, g: v, b: v, a: 255 }
            };
            out.put_pixel(x, y, p);
            x = x + 1;
        }
        y = y + 1;
    }
    out
}

/// The image that the alphablend form `img` holds, half as wide.
pub fn from_alphablend(img: &Image) -> (r: Image)
    requires
        img@.wf(),
    ensures
        r@.wf(),
        r@.width == img@.width / 2,
        r@.height == img@.height,
        forall|x: int, y: int| r@.contains(x, y) ==> #[trigger] r@.pixel(x, y) == transparent_pixel(img@, x, y),
{
    let hw = img.width() / 2;
    let h = img.height();
    let _n = img.pixel_count();
    proof {
        assert(hw * h <= img@.width * h) by (nonlinear_arith)
            requires
                hw <= img@.width,
        ;
        assert(img@.pixels.len() <= usize::MAX);
    }
    let mut out = Image::new(hw, h);
    assert forall|x2: int, y2: int| out@.contains(x2, y2) implies #[trigger] out@.pixel(x2, y2)
        == transparent() by {
        crate::raster::lemma_pixel_index(hw as int, h as int, x2, y2);
    }
    let mut y: u32 = 0;
    while y < h
        invariant
            img@.wf(),
            hw == img@.width / 2,
            h == img@.height,
            out@.wf(),
            out@.width == hw,
            out@.height == h,
            y <= h,
            forall|x2: int, y2: int|
                out@.contains(x2, y2) ==> #[trigger] out@.pixel(x2, y2) == if y2 < y {
                    transparent_pixel(img@, x2, y2)
                } else {
                    transparent()
                },
        decreases h - y,
    {
        let mut x: u32 = 0;
        while x < hw
            invariant
                img@.wf(),
                hw == img@.width / 2,
                h == img@.height,
                out@.wf(),
                out@.width == hw,
                out@.height == h,
                y < h,
                x <= hw,
                forall|x2: int, y2: int|
                    out@.contains(x2, y2) ==> #[trigger] out@.pixel(x2, y2) == if y2 < y || (y2
                        == y && x2 < x) {
                        transparent_pixel(img@, x2, y2)
                    } else {
                        transparent()
                    },
            decreases hw - x,
        {
            let c = img.get_pixel(x, y);
            let m = img.get_pixel(x + hw, y);
            out.put_pixel(x, y, Rgba { r: c.r, g: c.g, b: c.b, a: 255 - m.r });
            x = x + 1;
        }
        y = y + 1;
    }
    out
}

} // verus!
