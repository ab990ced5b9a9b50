//! 8-bit RGBA rasters.
use vstd::prelude::*;

verus! {

/// One pixel: red, green, blue and alpha.
#[derive(Clone, Copy, Debug, PartialEq, Eq, Structural)]
pub struct Rgba {
    pub r: u8,
    pub g: u8,
    pub b: u8,
    pub a: u8,
}

/// The pixel with all four channels zero.
pub open spec fn transparent() -> Rgba {
    Rgba { r: 0, g: 0, b: 0, a: 0 }
}

/// Channel `c` (0 red, 1 green, 2 blue, 3 alpha) of `p`.
pub open spec fn channel(p: Rgba, c: int) -> u8 {
    if c == 0 {
        p.r
    } else if c == 1 {
        p.g
    } else if c == 2 {
        p.b
    } else {
        p.a
    }
}

/// The four bytes of `p`, red first.
pub open spec fn rgba_bytes(p: Rgba) -> Seq<u8> {
    seq![p.r, p.g, p.b, p.a]
}

/// Pixels as raw bytes: four per pixel, red first.
pub open spec fn raw_bytes(pixels: Seq<Rgba>) -> Seq<u8> {
    Seq::new(4 * pixels.len(), |t: int| channel(pixels[t / 4], t % 4))
}

/// A raster as a value: its size, and its pixels row by row.
pub struct RasterView {
    pub width: u32,
    pub height: u32,
    pub pixels: Seq<Rgba>,
}

impl RasterView {
    /// One pixel per position.
    pub open spec fn wf(&self) -> bool {
        self.pixels.len() == self.width * self.height
    }

    /// The pixel at column `x` of row `y`.
    pub open spec fn pixel(&self, x: int, y: int) -> Rgba {
        self.pixels[y * self.width + x]
    }

    /// The raster with the pixel at `(x, y)` set to `p`.
    pub open spec fn with_pixel(&self, x: int, y: int, p: Rgba) -> RasterView {
        RasterView { pixels: self.pixels.update(y * self.width + x, p), ..*self }
    }

    /// `(x, y)` lies inside the raster.
    pub open spec fn contains(&self, x: int, y: int) -> bool {
        0 <= x < self.width && 0 <= y < self.height
    }
}

/// The raster with no pixels.
pub open spec fn empty_raster() -> RasterView {
    RasterView { width: 0, height: 0, pixels: Seq::empty() }
}

/// The largest width and the largest height among `dimensions`; zero where
/// there are none.
pub fn max_dimensions(dimensions: &Vec<(u32, u32)>) -> (r: (u32, u32))
    ensures
        forall|i: int|
            0 <= i < dimensions@.len() ==> (#[trigger] dimensions@[i]).0 <= r.0 && dimensions@[i].1
                <= r.1,
        r.0 == 0 || exists|i: int| 0 <= i < dimensions@.len() && dimensions@[i].0 == r.0,
        r.1 == 0 || exists|i: int| 0 <= i < dimensions@.len() && dimensions@[i].1 == r.1,
{
    let mut max_width: u32 = 0;
    let mut max_height: u32 = 0;
    let mut i: usize = 0;
    while i < dimensions.len()
        invariant
            i <= dimensions@.len(),
            forall|j: int|
                0 <= j < i ==> (#[trigger] dimensions@[j]).0 <= max_width && dimensions@[j].1
                    <= max_height,
            max_width == 0 || exists|j: int| 0 <= j < i && dimensions@[j].0 == max_width,
            max_height == 0 || exists|j: int| 0 <= j < i && dimensions@[j].1 == max_height,
        decreases dimensions@.len() - i,
    {
        let (w, h) = dimensions[i];
        if w > max_width {
            max_width = w;
        }
        if h > max_height {
            max_height = h;
        }
        i = i + 1;
    }
    (max_width, max_height)
}

/// An 8-bit RGBA raster.
pub struct Image {
    width: u32,
    height: u32,
    pixels: Vec<Rgba>,
}

impl View for Image {
    type V = RasterView;

    closed spec fn view(&self) -> RasterView {
        RasterView { width: self.width, height: self.height, pixels: self.pixels@ }
    }
}

/// Row `y`, column `x` of a `width`-wide raster lies at `y·width + x`, inside
/// a `width × height` raster.
pub proof fn lemma_pixel_index(width: int, height: int, x: int, y: int)
    requires
        0 <= x < width,
        0 <= y < height,
    ensures
        0 <= y * width + x < width * height,
{
    assert(0 <= y * width + x < width * height) by (nonlinear_arith)
        requires
            0 <= x < width,
            0 <= y < height,
    ;
}

/// Distinct positions of a raster lie at distinct indices.
pub proof fn lemma_pixel_index_distinct(width: int, x1: int, y1: int, x2: int, y2: int)
    requires
        0 <= x1 < width,
        0 <= x2 < width,
        0 <= y1,
        0 <= y2,
        (x1, y1) != (x2, y2),
    ensures
        y1 * width + x1 != y2 * width + x2,
{
    if y1 == y2 {
    } else if y1 < y2 {
        assert(y1 * width + x1 < y2 * width + x2) by (nonlinear_arith)
            requires
                0 <= x1 < width,
                0 <= x2,
                y1 < y2,
        ;
    } else {
        assert(y2 * width + x2 < y1 * width + x1) by (nonlinear_arith)
            requires
                0 <= x2 < width,
                0 <= x1,
                y2 < y1,
        ;
    }
}

/// Two rasters of one size whose pixels agree at every position are equal.
pub proof fn lemma_rasters_equal(a: RasterView, b: RasterView)
    requires
        a.wf(),
        b.wf(),
        a.width == b.width,
        a.height == b.height,
        forall|x: int, y: int| a.contains(x, y) ==> a.pixel(x, y) == b.pixel(x, y),
    ensures
        a == b,
{
    assert forall|k: int| 0 <= k < a.pixels.len() implies a.pixels[k] == b.pixels[k] by {
        let w = a.width as int;
        let h = a.height as int;
        assert(w > 0) by (nonlinear_arith)
            requires
                0 <= k < w * h,
                w >= 0,
                h >= 0,
        ;
        let x = k % w;
        let y = k / w;
        vstd::arithmetic::div_mod::lemma_fundamental_div_mod(k, w);
        vstd::arithmetic::div_mod::lemma_mod_bound(k, w);
        vstd::arithmetic::div_mod::lemma_div_pos_is_pos(k, w);
        vstd::arithmetic::div_mod::lemma_multiply_divide_lt(k, w, h);
        assert(k == y * w + x) by (nonlinear_arith)
            requires
                k == w * y + x,
        ;
        assert(a.contains(x, y));
    }
    assert(a.pixels =~= b.pixels);
}

impl Image {
    /// A `width × height` raster of transparent black.
    pub fn new(width: u32, height: u32) -> (r: Image)
        requires
            width * height <= usize::MAX,
        ensures
            r@.wf(),
            r@.width == width,
            r@.height == height,
            forall|k: int| 0 <= k < r@.pixels.len() ==> r@.pixels[k] == transparent(),
    {
        let n = (width as usize) * (height as usize);
        let mut pixels: Vec<Rgba> = Vec::new();
        let mut i: usize = 0;
        while i < n
            invariant
                i <= n,
                pixels@.len() == i,
                forall|k: int| 0 <= k < i ==> pixels@[k] == transparent(),
            decreases n - i,
        {
            pixels.push(Rgba { r: 0, g: 0, b: 0, a: 0 });
            i = i + 1;
        }
        Image { width, height, pixels }
    }

    /// The raster of `width × height` pixels stored as raw bytes in `data`:
    /// `Some` exactly where `data` holds four bytes for each pixel.
    pub fn from_raw(width: u32, height: u32, data: Vec<u8>) -> (r: Option<Image>)
        ensures
            r is Some <==> data@.len() == 4 * width * height,
            r matches Some(img) ==> img@.wf() && img@.width == width && img@.height == height
                && raw_bytes(img@.pixels) == data@,
    {
        let n = data.len() / 4;
        proof {
            vstd::arithmetic::div_mod::lemma_fundamental_div_mod(data@.len() as int, 4);
            assert(4 * width * height == 4 * (width * height)) by (nonlinear_arith);
            vstd::arithmetic::div_mod::lemma_mod_bound(data@.len() as int, 4);
            assert(width * height <= u64::MAX) by (nonlinear_arith)
                requires
                    width <= u32::MAX,
                    height <= u32::MAX,
            ;
        }
        if data.len() % 4 != 0 || (width as u64) * (height as u64) != n as u64 {
            return None;
        }
        let mut pixels: Vec<Rgba> = Vec::new();
        let mut i: usize = 0;
        while i < n
            invariant
                i <= n,
                n * 4 == data@.len(),
                data@.len() <= usize::MAX,
                pixels@.len() == i,
                forall|k: int|
                    0 <= k < i ==> #[trigger] pixels@[k] == (Rgba {
                        r: data@[4 * k],
                        g: data@[4 * k + 1],
                        b: data@[4 * k + 2],
                        a: data@[4 * k + 3],
                    }),
            decreases n - i,
        {
            let t = 4 * i;
            pixels.push(Rgba { r: data[t], g: data[t + 1], b: data[t + 2], a: data[t + 3] });
            i = i + 1;
        }
        let img = Image { width, height, pixels };
        assert(raw_bytes(img@.pixels) =~= data@) by {
            assert forall|t: int| 0 <= t < data@.len() implies raw_bytes(img@.pixels)[t]
                == data@[t] by {
                let k = t / 4;
                vstd::arithmetic::div_mod::lemma_fundamental_div_mod(t, 4);
                assert(pixels@[k] == (Rgba {
                    r: data@[4 * k],
                    g: data@[4 * k + 1],
                    b: data@[4 * k + 2],
                    a: data@[4 * k + 3],
                }));
            }
        }
        Some(img)
    }

    /// The pixels as raw bytes, four per pixel, red first.
    pub fn to_raw(&self) -> (r: Vec<u8>)
        requires
            4 * self@.pixels.len() <= usize::MAX,
        ensures
            r@ == raw_bytes(self@.pixels),
    {
        let mut r: Vec<u8> = Vec::new();
        let mut i: usize = 0;
        while i < self.pixels.len()
            invariant
                i <= self.pixels@.len(),
                4 * self.pixels@.len() <= usize::MAX,
                r@ == raw_bytes(self.pixels@.subrange(0, i as int)),
            decreases self.pixels@.len() - i,
        {
            let p = self.pixels[i];
            r.push(p.r);
            r.push(p.g);
            r.push(p.b);
            r.push(p.a);
            proof {
                let s = self.pixels@.subrange(0, i + 1);
                assert(raw_bytes(s) =~= raw_bytes(self.pixels@.subrange(0, i as int)).push(p.r).push(
                    p.g,
                ).push(p.b).push(p.a)) by {
                    assert forall|t: int| 0 <= t < 4 * (i + 1) implies raw_bytes(s)[t] == (
                    if t < 4 * i {
                        raw_bytes(self.pixels@.subrange(0, i as int))[t]
                    } else {
                        channel(p, t - 4 * i)
                    }) by {
                        vstd::arithmetic::div_mod::lemma_fundamental_div_mod(t, 4);
                    }
                }
            }
            i = i + 1;
        }
        assert(self.pixels@.subrange(0, self.pixels@.len() as int) =~= self.pixels@);
        r
    }

    /// A copy of the raster.
    pub fn duplicate(&self) -> (r: Image)
        ensures
            r@ == self@,
    {
        let mut pixels: Vec<Rgba> = Vec::new();
        let mut i: usize = 0;
        while i < self.pixels.len()
            invariant
                i <= self.pixels@.len(),
                pixels@ == self.pixels@.subrange(0, i as int),
            decreases self.pixels@.len() - i,
        {
            pixels.push(self.pixels[i]);
            i = i + 1;
            assert(pixels@ =~= self.pixels@.subrange(0, i as int));
        }
        assert(pixels@ =~= self.pixels@);
        Image { width: self.width, height: self.height, pixels }
    }

    /// A copy of the raster with every pixel made fully opaque.
    pub fn with_opaque_alpha(&self) -> (r: Image)
        ensures
            r@.width == self@.width,
            r@.height == self@.height,
            r@.pixels.len() == self@.pixels.len(),
            forall|k: int|
                0 <= k < self@.pixels.len() ==> #[trigger] r@.pixels[k] == (Rgba {
                    a: 255,
                    ..self@.pixels[k]
                }),
    {
        let mut pixels: Vec<Rgba> = Vec::new();
        let mut i: usize = 0;
        while i < self.pixels.len()
            invariant
                i <= self.pixels@.len(),
                pixels@.len() == i,
                forall|k: int|
                    0 <= k < i ==> #[trigger] pixels@[k] == (Rgba { a: 255, ..self.pixels@[k] }),
            decreases self.pixels@.len() - i,
        {
            let p = self.pixels[i];
            pixels.push(Rgba { r: p.r, g: p.g, b: p.b, a: 255 });
            i = i + 1;
        }
        Image { width: self.width, height: self.height, pixels }
    }

    /// How many pixels the raster holds.
    pub fn pixel_count(&self) -> (r: usize)
        ensures
            r == self@.pixels.len(),
    {
        self.pixels.len()
    }

    pub fn width(&self) -> (r: u32)
        ensures
            r == self@.width,
    {
        self.width
    }

    pub fn height(&self) -> (r: u32)
        ensures
            r == self@.height,
    {
        self.height
    }

    /// The pixel at column `x` of row `y`.
    pub fn get_pixel(&self, x: u32, y: u32) -> (r: Rgba)
        requires
            self@.wf(),
            self@.contains(x as int, y as int),
        ensures
            r == self@.pixel(x as int, y as int),
    {
        let _len = self.pixels.len();
        proof {
            lemma_pixel_index(self.width as int, self.height as int, x as int, y as int);
            assert(y * self.width <= y * self.width + x);
        }
        self.pixels[(y as usize) * (self.width as usize) + (x as usize)]
    }

    /// Sets the pixel at column `x` of row `y` to `p`.
    pub fn put_pixel(&mut self, x: u32, y: u32, p: Rgba)
        requires
            old(self)@.wf(),
            old(self)@.contains(x as int, y as int),
        ensures
            final(self)@.wf(),
            final(self)@ == old(self)@.with_pixel(x as int, y as int, p),
            final(self)@.width == old(self)@.width,
            final(self)@.height == old(self)@.height,
            final(self)@.pixel(x as int, y as int) == p,
            forall|x2: int, y2: int|
                #![trigger final(self)@.pixel(x2, y2)]
                old(self)@.contains(x2, y2) && (x2, y2) != (x as int, y as int)
                    ==> final(self)@.pixel(x2, y2) == old(self)@.pixel(x2, y2),
    {
        let _len = self.pixels.len();
        proof {
            lemma_pixel_index(self.width as int, self.height as int, x as int, y as int);
            assert(y * self.width <= y * self.width + x);
        }
        let k = (y as usize) * (self.width as usize) + (x as usize);
        self.pixels.set(k, p);
        assert(self.pixels@ == old(self).pixels@.update(k as int, p));
        assert(self@ =~= old(self)@.with_pixel(x as int, y as int, p));
        proof {
            assert forall|x2: int, y2: int|
                old(self)@.contains(x2, y2) && (x2, y2) != (x as int, y as int) implies self@.pixel(
                x2,
                y2,
            ) == old(self)@.pixel(x2, y2) by {
                lemma_pixel_index_distinct(self.width as int, x as int, y as int, x2, y2);
                lemma_pixel_index(self.width as int, self.height as int, x2, y2);
            }
        }
    }
}


/// The pixels of an image in block order, with their positions.
pub struct BlockImageIterator<'s> {
    original_image: &'s Image,
    xy_iter: crate::block_order::BlockXYIterator,
}

impl<'s> BlockImageIterator<'s> {
    /// The image traversed.
    pub closed spec fn image(&self) -> RasterView {
        self.original_image@
    }

    /// The traversal of its positions.
    pub closed spec fn positions(&self) -> crate::block_order::BlockXYIterator {
        self.xy_iter
    }

    pub closed spec fn wf(&self) -> bool {
        &&& self.original_image@.wf()
        &&& self.xy_iter.wf()
        &&& self.xy_iter.width() == self.original_image@.width
        &&& self.xy_iter.height() == self.original_image@.height
    }

    /// A traversal of `original_image` in tiles of side `block_size`.
    pub fn new(original_image: &'s Image, block_size: usize) -> (r: BlockImageIterator<'s>)
        requires
            original_image@.wf(),
            crate::block_order::traversal_fits(
                block_size as int,
                original_image@.width as int,
                original_image@.height as int,
            ),
        ensures
            r.wf(),
            r.image() == original_image@,
            r.positions().block() == block_size,
            r.positions().produced() == Seq::<(u32, u32)>::empty(),
    {
        let dims = (original_image.width() as usize, original_image.height() as usize);
        BlockImageIterator {
            original_image,
            xy_iter: crate::block_order::BlockXYIterator::new(block_size, dims),
        }
    }

    /// The next position in block order and the pixel there, or `None` once
    /// all are handed out.
    pub fn next(&mut self) -> (r: Option<(u32, u32, Rgba)>)
        requires
            old(self).wf(),
        ensures
            final(self).wf(),
            final(self).image() == old(self).image(),
            final(self).positions().block() == old(self).positions().block(),
            r matches Some((x, y, p)) ==> final(self).positions().produced() == old(
                self,
            ).positions().produced().push((x, y)) && p == old(self).image().pixel(x as int, y as int),
            r is None ==> old(self).positions().produced() == old(self).positions().sequence(),
    {
        match self.xy_iter.next() {
            None => None,
            Some((x, y)) => Some((x, y, self.original_image.get_pixel(x, y))),
        }
    }
}

} // verus!
