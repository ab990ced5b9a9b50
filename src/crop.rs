//! The bounding box of the changed positions of an image.
use vstd::prelude::*;

verus! {

/// A rectangle of an image: its top-left corner and its width and height.
/// The empty region is `(0, 0)` with size `(0, 0)`.
#[derive(Clone, Copy, Debug, PartialEq, Eq)]
pub struct CropRegion {
    pub top_left: (u32, u32),
    pub dimensions: (u32, u32),
}

/// `r` is the smallest rectangle that holds every position of `points`: it
/// holds them all, and each of its four edges touches one of them; the empty
/// region where there are none.
pub open spec fn is_crop_of(r: CropRegion, points: Set<(u32, u32)>) -> bool {
    if points == Set::<(u32, u32)>::empty() {
        r == CropRegion { top_left: (0, 0), dimensions: (0, 0) }
    } else {
        let (x0, y0) = r.top_left;
        let (w, h) = r.dimensions;
        &&& w >= 1
        &&& h >= 1
        &&& forall|p: (u32, u32)|
            points.contains(p) ==> x0 <= p.0 < x0 + w && y0 <= p.1 < y0 + h
        &&& exists|p: (u32, u32)| points.contains(p) && p.0 == x0
        &&& exists|p: (u32, u32)| points.contains(p) && p.0 == x0 + w - 1
        &&& exists|p: (u32, u32)| points.contains(p) && p.1 == y0
        &&& exists|p: (u32, u32)| points.contains(p) && p.1 == y0 + h - 1
    }
}

/// Collects positions of a raster and yields their bounding box.
pub struct Cropper {
    min_x: u32,
    max_x: u32,
    min_y: u32,
    max_y: u32,
    any: bool,
    dimensions: Ghost<(u32, u32)>,
    points: Ghost<Set<(u32, u32)>>,
}

impl Cropper {
    /// The positions collected so far.
    pub closed spec fn points(&self) -> Set<(u32, u32)> {
        self.points@
    }

    /// The size of the raster whose positions are collected.
    pub closed spec fn dimensions(&self) -> (u32, u32) {
        self.dimensions@
    }

    pub closed spec fn wf(&self) -> bool {
        &&& forall|p: (u32, u32)|
            self.points@.contains(p) ==> p.0 < self.dimensions@.0 && p.1 < self.dimensions@.1
        &&& !self.any <==> self.points@ == Set::<(u32, u32)>::empty()
        &&& self.any ==> {
            &&& forall|p: (u32, u32)|
                self.points@.contains(p) ==> self.min_x <= p.0 <= self.max_x && self.min_y <= p.1
                    <= self.max_y
            &&& exists|p: (u32, u32)| self.points@.contains(p) && p.0 == self.min_x
            &&& exists|p: (u32, u32)| self.points@.contains(p) && p.0 == self.max_x
            &&& exists|p: (u32, u32)| self.points@.contains(p) && p.1 == self.min_y
            &&& exists|p: (u32, u32)| self.points@.contains(p) && p.1 == self.max_y
        }
    }

    /// A cropper for a raster of `image_dimensions`, with no position yet.
    pub fn new(image_dimensions: (u32, u32)) -> (r: Cropper)
        ensures
            r.wf(),
            r.points() == Set::<(u32, u32)>::empty(),
            r.dimensions() == image_dimensions,
    {
        Cropper {
            min_x: image_dimensions.0,
            max_x: 0,
            min_y: image_dimensions.1,
            max_y: 0,
            any: false,
            dimensions: Ghost(image_dimensions),
            points: Ghost(Set::empty()),
        }
    }

    /// Adds the position `(x, y)`.
    pub fn add_nonzero_pixel(&mut self, x: u32, y: u32)
        requires
            old(self).wf(),
            x < old(self).dimensions().0,
            y < old(self).dimensions().1,
        ensures
            final(self).wf(),
            final(self).points() == old(self).points().insert((x, y)),
            final(self).dimensions() == old(self).dimensions(),
    {
        let ghost p = (x, y);
        if !self.any {
            self.min_x = x;
            self.max_x = x;
            self.min_y = y;
            self.max_y = y;
            self.any = true;
        } else {
            if x < self.min_x {
                self.min_x = x;
            }
            if x > self.max_x {
                self.max_x = x;
            }
            if y < self.min_y {
                self.min_y = y;
            }
            if y > self.max_y {
                self.max_y = y;
            }
        }
        self.points = Ghost(self.points@.insert((x, y)));
        assert(self.points@.contains(p));
        assert(self.points@ != Set::<(u32, u32)>::empty()) by {
            assert(!Set::<(u32, u32)>::empty().contains(p));
        }
        let ghost old_points = old(self).points@;
        assert forall|q: (u32, u32)| old_points.contains(q) implies self.points@.contains(q) by {}
    }

    /// The bounding box of the positions collected.
    pub fn get_crop_region(&self) -> (r: CropRegion)
        requires
            self.wf(),
        ensures
            is_crop_of(r, self.points()),
            r.top_left.0 + r.dimensions.0 <= self.dimensions().0,
            r.top_left.1 + r.dimensions.1 <= self.dimensions().1,
    {
        if !self.any {
            CropRegion { top_left: (0, 0), dimensions: (0, 0) }
        } else {
            let ghost p = choose|p: (u32, u32)| self.points@.contains(p) && p.0 == self.max_x;
            let ghost q = choose|p: (u32, u32)| self.points@.contains(p) && p.1 == self.max_y;
            let r = CropRegion {
                top_left: (self.min_x, self.min_y),
                dimensions: ((self.max_x - self.min_x + 1), (self.max_y - self.min_y + 1)),
            };
            assert(r.top_left.0 + r.dimensions.0 - 1 == self.max_x);
            assert(r.top_left.1 + r.dimensions.1 - 1 == self.max_y);
            r
        }
    }
}

} // verus!
