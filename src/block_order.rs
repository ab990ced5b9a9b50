//! Block-order traversal of a raster: `B×B` tiles in row-major order, and the
//! pixels of each tile in row-major order, with the tiles at the right and
//! bottom edges cut to the raster.
use vstd::arithmetic::div_mod::{
    lemma_div_denominator, lemma_fundamental_div_mod, lemma_fundamental_div_mod_converse,
    lemma_mod_bound,
};
use vstd::prelude::*;

verus! {

/// How many tiles of side `b` cover a length of `n`: `⌈n / b⌉`.
pub open spec fn blocks_across(n: int, b: int) -> int {
    n / b + if n % b == 0 {
        0int
    } else {
        1int
    }
}

/// How many candidate positions the traversal of a `w × h` raster in tiles of
/// side `b` steps through: every position of every tile, edge tiles included.
pub open spec fn candidate_count(b: int, w: int, h: int) -> int {
    b * b * blocks_across(w, b) * blocks_across(h, b)
}

/// The position visited at step `i`, where `nx` tiles cover a row: within the
/// tile `i mod b` across and `(i div b) mod b` down; tile `(i div b²) mod nx`
/// across and `i div (b²·nx)` down.
pub open spec fn candidate(b: int, nx: int, i: int) -> (int, int) {
    (i % b + b * ((i / (b * b)) % nx), (i / b) % b + b * (i / (b * b * nx)))
}

/// The step at which the traversal visits `(x, y)`.
pub open spec fn step_of(b: int, nx: int, x: int, y: int) -> int {
    x % b + b * (y % b) + b * b * (x / b) + b * b * nx * (y / b)
}

/// The positions inside a `w × h` raster among the first `n` steps, in order.
pub open spec fn block_prefix(b: int, w: int, h: int, n: nat) -> Seq<(u32, u32)>
    decreases n,
{
    if n == 0 {
        seq![]
    } else {
        let s = block_prefix(b, w, h, (n - 1) as nat);
        let c = candidate(b, blocks_across(w, b), n - 1);
        if c.0 < w && c.1 < h {
            s.push((c.0 as u32, c.1 as u32))
        } else {
            s
        }
    }
}

/// The block-order traversal of a `w × h` raster in tiles of side `b`.
pub open spec fn block_order(b: int, w: int, h: int) -> Seq<(u32, u32)> {
    block_prefix(b, w, h, candidate_count(b, w, h) as nat)
}

/// What a traversal needs to stay within `u64`, and its coordinates within `u32`.
pub open spec fn traversal_fits(b: int, w: int, h: int) -> bool {
    &&& 1 <= b
    &&& 0 <= w <= u32::MAX
    &&& 0 <= h <= u32::MAX
    &&& candidate_count(b, w, h) <= u64::MAX
}

/// A lazy block-order traversal of the positions of a raster.
pub struct BlockXYIterator {
    block_size: u64,
    dimensions: (u64, u64),
    num_x_blocks: u64,
    num_y_blocks: u64,
    block_area: u64,
    block_row_area: u64,
    total: u64,
    i: u64,
}

impl BlockXYIterator {
    pub closed spec fn block(&self) -> int {
        self.block_size as int
    }

    pub closed spec fn width(&self) -> int {
        self.dimensions.0 as int
    }

    pub closed spec fn height(&self) -> int {
        self.dimensions.1 as int
    }

    /// What has been handed out is the start of the whole traversal.
    pub proof fn lemma_produced_prefix(&self)
        requires
            self.wf(),
        ensures
            self.produced().len() <= self.sequence().len(),
            self.produced() == self.sequence().subrange(0, self.produced().len() as int),
    {
        lemma_prefix_is_prefix(self.block(), self.width(), self.height(), self.i as nat, self.total as nat);
    }

    /// The positions handed out so far.
    pub closed spec fn produced(&self) -> Seq<(u32, u32)> {
        block_prefix(self.block(), self.width(), self.height(), self.i as nat)
    }

    /// Steps left before the traversal ends.
    pub closed spec fn steps_left(&self) -> nat {
        (self.total - self.i) as nat
    }

    /// The whole traversal.
    pub open spec fn sequence(&self) -> Seq<(u32, u32)> {
        block_order(self.block(), self.width(), self.height())
    }

    pub closed spec fn wf(&self) -> bool {
        &&& traversal_fits(self.block(), self.width(), self.height())
        &&& self.num_x_blocks == blocks_across(self.width(), self.block())
        &&& self.num_y_blocks == blocks_across(self.height(), self.block())
        &&& self.total == candidate_count(self.block(), self.width(), self.height())
        &&& self.total > 0 ==> self.block_area == self.block_size * self.block_size
            && self.block_row_area == self.block_area * self.num_x_blocks
            && self.total == self.block_row_area * self.num_y_blocks
        &&& self.i <= self.total
    }

    /// A traversal of a `dimensions.0 × dimensions.1` raster in tiles of side
    /// `block_size`, at its start.
    pub fn new(block_size: usize, dimensions: (usize, usize)) -> (r: BlockXYIterator)
        requires
            traversal_fits(block_size as int, dimensions.0 as int, dimensions.1 as int),
        ensures
            r.wf(),
            r.block() == block_size,
            r.width() == dimensions.0,
            r.height() == dimensions.1,
            r.produced() == Seq::<(u32, u32)>::empty(),
    {
        let b = block_size as u64;
        let w = dimensions.0 as u64;
        let h = dimensions.1 as u64;
        let num_x_blocks = w / b + if w % b == 0 {
            0
        } else {
            1
        };
        let num_y_blocks = h / b + if h % b == 0 {
            0
        } else {
            1
        };
        let ghost nx = blocks_across(w as int, b as int);
        let ghost ny = blocks_across(h as int, b as int);
        if num_x_blocks == 0 || num_y_blocks == 0 {
            assert(nx * ny == 0) by (nonlinear_arith)
                requires
                    nx == 0 || ny == 0,
            ;
            assert(b * b * nx * ny == 0) by (nonlinear_arith)
                requires
                    nx * ny == 0,
            ;
            return BlockXYIterator {
                block_size: b,
                dimensions: (w, h),
                num_x_blocks,
                num_y_blocks,
                block_area: 0,
                block_row_area: 0,
                total: 0,
                i: 0,
            };
        }
        assert(b * b <= b * b * nx && b * b * nx <= b * b * nx * ny) by (nonlinear_arith)
            requires
                b >= 1,
                nx >= 1,
                ny >= 1,
        ;
        let block_area = b * b;
        let block_row_area = block_area * num_x_blocks;
        let total = block_row_area * num_y_blocks;
        BlockXYIterator {
            block_size: b,
            dimensions: (w, h),
            num_x_blocks,
            num_y_blocks,
            block_area,
            block_row_area,
            total,
            i: 0,
        }
    }

    /// The next position of the traversal, or `None` once all are handed out.
    pub fn next(&mut self) -> (r: Option<(u32, u32)>)
        requires
            old(self).wf(),
        ensures
            final(self).wf(),
            final(self).block() == old(self).block(),
            final(self).width() == old(self).width(),
            final(self).height() == old(self).height(),
            r matches Some(p) ==> final(self).produced() == old(self).produced().push(p)
                && final(self).steps_left() < old(self).steps_left() && p.0 < final(self).width()
                && p.1 < final(self).height(),
            r is None ==> final(self).produced() == old(self).produced() && old(self).produced()
                == old(self).sequence(),
    {
        let ghost start = self.produced();
        while self.i < self.total
            invariant
                self.wf(),
                self.block() == old(self).block(),
                self.width() == old(self).width(),
                self.height() == old(self).height(),
                self.produced() == start,
                start == old(self).produced(),
                self.i >= old(self).i,
                self.total == old(self).total,
            decreases self.total - self.i,
        {
            let i = self.i;
            let (x, y) = self.candidate_at(i);
            self.i = i + 1;
            if x < self.dimensions.0 && y < self.dimensions.1 {
                assert(self.produced() == start.push((x as u32, y as u32)));
                assert(self.steps_left() < old(self).steps_left());
                return Some((x as u32, y as u32));
            }
        }
        None
    }

    /// The candidate position at step `i`.
    fn candidate_at(&self, i: u64) -> (r: (u64, u64))
        requires
            self.wf(),
            i < self.total,
        ensures
            r.0 == candidate(self.block(), self.num_x_blocks as int, i as int).0,
            r.1 == candidate(self.block(), self.num_x_blocks as int, i as int).1,
    {
        let b = self.block_size;
        let nx = self.num_x_blocks;
        proof {
            lemma_counts_positive(b as int, self.width(), self.height());
            lemma_candidate_fits(b as int, nx as int, self.num_y_blocks as int, i as int);
            assert(b * b >= 1 && b * b * nx >= 1) by (nonlinear_arith)
                requires
                    b >= 1,
                    nx >= 1,
            ;
        }
        let x_in_block = i % b;
        let y_in_block = (i / b) % b;
        let x_block = (i / self.block_area) % nx;
        let y_block = i / self.block_row_area;
        (x_in_block + b * x_block, y_in_block + b * y_block)
    }
}

/// Every position of the block-order traversal of a `block_size` tiling of a
/// `dimensions.0 × dimensions.1` raster, in order.
pub fn block_order_coordinates(block_size: usize, dimensions: (usize, usize)) -> (r: Vec<(u32, u32)>)
    requires
        traversal_fits(block_size as int, dimensions.0 as int, dimensions.1 as int),
    ensures
        r@ == block_order(block_size as int, dimensions.0 as int, dimensions.1 as int),
{
    let mut it = BlockXYIterator::new(block_size, dimensions);
    let mut r: Vec<(u32, u32)> = Vec::new();
    loop
        invariant
            it.wf(),
            it.block() == block_size,
            it.width() == dimensions.0,
            it.height() == dimensions.1,
            r@ == it.produced(),
        decreases it.steps_left(),
    {
        match it.next() {
            Some(p) => r.push(p),
            None => return r,
        }
    }
}

/// The step of the position visited at step `i` is `i`.
proof fn lemma_step_of_candidate(b: int, nx: int, i: int)
    requires
        b >= 1,
        nx >= 1,
        i >= 0,
    ensures
        step_of(b, nx, candidate(b, nx, i).0, candidate(b, nx, i).1) == i,
{
    let q1 = i / b;
    let a0 = i % b;
    lemma_fundamental_div_mod(i, b);
    lemma_mod_bound(i, b);
    vstd::arithmetic::div_mod::lemma_div_pos_is_pos(i, b);
    let a1 = q1 % b;
    let q2 = q1 / b;
    lemma_fundamental_div_mod(q1, b);
    lemma_mod_bound(q1, b);
    vstd::arithmetic::div_mod::lemma_div_pos_is_pos(q1, b);
    lemma_div_denominator(i, b, b);
    let a2 = q2 % nx;
    let a3 = q2 / nx;
    lemma_fundamental_div_mod(q2, nx);
    lemma_mod_bound(q2, nx);
    vstd::arithmetic::div_mod::lemma_div_pos_is_pos(q2, nx);
    lemma_div_denominator(i, b * b, nx);
    assert(b * b > 0) by (nonlinear_arith)
        requires
            b >= 1,
    ;
    let x = a0 + b * a2;
    let y = a1 + b * a3;
    assert(candidate(b, nx, i) == (x, y));
    lemma_fundamental_div_mod_converse(x, b, a2, a0);
    lemma_fundamental_div_mod_converse(y, b, a3, a1);
    assert(x == a2 * b + a0 && y == a3 * b + a1) by (nonlinear_arith)
        requires
            x == a0 + b * a2,
            y == a1 + b * a3,
    ;
    assert(a0 + b * a1 + b * b * a2 + b * b * nx * a3 == i) by (nonlinear_arith)
        requires
            i == b * q1 + a0,
            q1 == b * q2 + a1,
            q2 == nx * a3 + a2,
    ;
}

/// The position visited at the step of `(x, y)` is `(x, y)`, and that step
/// comes before the end of the traversal.
proof fn lemma_candidate_of_step(b: int, nx: int, ny: int, x: int, y: int)
    requires
        b >= 1,
        0 <= x < b * nx,
        0 <= y < b * ny,
    ensures
        candidate(b, nx, step_of(b, nx, x, y)) == (x, y),
        0 <= step_of(b, nx, x, y) < b * b * nx * ny,
{
    assert(nx >= 1 && ny >= 1) by (nonlinear_arith)
        requires
            b >= 1,
            0 <= x < b * nx,
            0 <= y < b * ny,
    ;
    let a0 = x % b;
    let a2 = x / b;
    let a1 = y % b;
    let a3 = y / b;
    lemma_fundamental_div_mod(x, b);
    lemma_fundamental_div_mod(y, b);
    lemma_mod_bound(x, b);
    lemma_mod_bound(y, b);
    vstd::arithmetic::div_mod::lemma_div_pos_is_pos(x, b);
    vstd::arithmetic::div_mod::lemma_div_pos_is_pos(y, b);
    vstd::arithmetic::div_mod::lemma_multiply_divide_lt(x, b, nx);
    vstd::arithmetic::div_mod::lemma_multiply_divide_lt(y, b, ny);
    let i = step_of(b, nx, x, y);
    let q2 = a2 + nx * a3;
    let q1 = a1 + b * q2;
    assert(i == q1 * b + a0 && q1 == q2 * b + a1 && q2 == a3 * nx + a2) by (nonlinear_arith)
        requires
            i == a0 + b * a1 + b * b * a2 + b * b * nx * a3,
            q2 == a2 + nx * a3,
            q1 == a1 + b * q2,
    ;
    assert(q1 >= 0 && q2 >= 0) by (nonlinear_arith)
        requires
            a1 >= 0,
            a2 >= 0,
            a3 >= 0,
            b >= 1,
            nx >= 1,
            q2 == a2 + nx * a3,
            q1 == a1 + b * q2,
    ;
    lemma_fundamental_div_mod_converse(i, b, q1, a0);
    lemma_fundamental_div_mod_converse(q1, b, q2, a1);
    lemma_fundamental_div_mod_converse(q2, nx, a3, a2);
    lemma_div_denominator(i, b, b);
    lemma_div_denominator(i, b * b, nx);
    assert(candidate(b, nx, i) == (a0 + b * a2, a1 + b * a3));
    assert(0 <= i < b * b * nx * ny) by (nonlinear_arith)
        requires
            i == a0 + b * a1 + b * b * a2 + b * b * nx * a3,
            0 <= a0 < b,
            0 <= a1 < b,
            0 <= a2 < nx,
            0 <= a3 < ny,
    ;
}

/// What holds of the positions among the first `n` steps: each lies inside
/// the raster and was visited at a step before `n`, and no two are equal.
proof fn lemma_prefix_facts(b: int, w: int, h: int, n: nat)
    requires
        traversal_fits(b, w, h),
        n <= candidate_count(b, w, h),
    ensures
        forall|k: int|
            0 <= k < block_prefix(b, w, h, n).len() ==> {
                let p = #[trigger] block_prefix(b, w, h, n)[k];
                &&& p.0 < w
                &&& p.1 < h
                &&& step_of(b, blocks_across(w, b), p.0 as int, p.1 as int) < n
            },
        forall|j: int, k: int|
            0 <= j < k < block_prefix(b, w, h, n).len() ==> block_prefix(b, w, h, n)[j]
                != block_prefix(b, w, h, n)[k],
    decreases n,
{
    if n > 0 {
        lemma_prefix_facts(b, w, h, (n - 1) as nat);
        lemma_counts_positive(b, w, h);
        let nx = blocks_across(w, b);
        let c = candidate(b, nx, n - 1);
        if c.0 < w && c.1 < h {
            lemma_step_of_candidate(b, nx, n - 1);
            let prev = block_prefix(b, w, h, (n - 1) as nat);
            lemma_candidate_fits(b, nx, blocks_across(h, b), n - 1);
            let p = (c.0 as u32, c.1 as u32);
            assert(p.0 as int == c.0 && p.1 as int == c.1);
            assert forall|j: int| 0 <= j < prev.len() implies prev[j] != p by {
                let q = prev[j];
                if q == p {
                    assert(step_of(b, nx, q.0 as int, q.1 as int) == n - 1);
                }
            }
        }
    }
}

/// The positions among the first `n` steps start those among the first `m`,
/// for `m ≥ n`.
proof fn lemma_prefix_is_prefix(b: int, w: int, h: int, n: nat, m: nat)
    requires
        n <= m,
    ensures
        block_prefix(b, w, h, n).len() <= block_prefix(b, w, h, m).len(),
        block_prefix(b, w, h, n) == block_prefix(b, w, h, m).subrange(0, block_prefix(b, w, h, n).len() as int),
    decreases m - n,
{
    if n < m {
        lemma_prefix_is_prefix(b, w, h, n, (m - 1) as nat);
        let s = block_prefix(b, w, h, (m - 1) as nat);
        let t = block_prefix(b, w, h, m);
        let k = block_prefix(b, w, h, n).len() as int;
        assert(t.subrange(0, k) =~= s.subrange(0, k));
    } else {
        assert(block_prefix(b, w, h, n) =~= block_prefix(b, w, h, m).subrange(0, block_prefix(b, w, h, n).len() as int));
    }
}

/// A position among the first `n` steps is among the first `m` for `m ≥ n`.
proof fn lemma_prefix_grows(b: int, w: int, h: int, n: nat, m: nat, p: (u32, u32))
    requires
        n <= m,
        block_prefix(b, w, h, n).contains(p),
    ensures
        block_prefix(b, w, h, m).contains(p),
    decreases m - n,
{
    if n < m {
        lemma_prefix_grows(b, w, h, n, (m - 1) as nat, p);
        let s = block_prefix(b, w, h, (m - 1) as nat);
        let k = choose|k: int| 0 <= k < s.len() && s[k] == p;
        let c = candidate(b, blocks_across(w, b), m - 1);
        if c.0 < w && c.1 < h {
            assert(s.push((c.0 as u32, c.1 as u32))[k] == p);
        }
    }
}

/// The block-order traversal visits each position of a `w × h` raster
/// exactly once, and nothing else; it is empty where `w` or `h` is zero.
pub proof fn lemma_block_order_coverage(b: int, w: int, h: int)
    requires
        traversal_fits(b, w, h),
    ensures
        forall|k: int|
            0 <= k < block_order(b, w, h).len() ==> (#[trigger] block_order(b, w, h)[k]).0 < w
                && block_order(b, w, h)[k].1 < h,
        forall|j: int, k: int|
            0 <= j < k < block_order(b, w, h).len() ==> block_order(b, w, h)[j] != block_order(
                b,
                w,
                h,
            )[k],
        forall|x: u32, y: u32| x < w && y < h ==> #[trigger] block_order(b, w, h).contains((x, y)),
        block_order(b, w, h).len() == w * h,
{
    let n = candidate_count(b, w, h) as nat;
    lemma_counts_positive(b, w, h);
    lemma_prefix_facts(b, w, h, n);
    let nx = blocks_across(w, b);
    let ny = blocks_across(h, b);
    assert forall|x: u32, y: u32| x < w && y < h implies #[trigger] block_order(
        b,
        w,
        h,
    ).contains((x, y)) by {
        lemma_blocks_cover(w, b);
        lemma_blocks_cover(h, b);
        lemma_candidate_of_step(b, nx, ny, x as int, y as int);
        let i = step_of(b, nx, x as int, y as int);
        let s = block_prefix(b, w, h, i as nat);
        assert(block_prefix(b, w, h, (i + 1) as nat) == s.push((x, y)));
        assert(s.push((x, y))[s.len() as int] == (x, y));
        lemma_prefix_grows(b, w, h, (i + 1) as nat, n, (x, y));
    }
    lemma_block_order_len(b, w, h);
    if w == 0 || h == 0 {
        assert(n == 0) by {
            assert(nx == 0 || ny == 0) by {
                if w == 0 {
                    assert(0int / b == 0);
                    assert(0int % b == 0);
                }
                if h == 0 {
                    assert(0int / b == 0);
                    assert(0int % b == 0);
                }
            }
            assert(b * b * nx * ny == 0) by (nonlinear_arith)
                requires
                    nx == 0 || ny == 0,
            ;
        }
    }
}

/// A raster whose raw bytes fit in memory can be traversed in tiles of side 50.
pub proof fn lemma_traversal_fits(w: int, h: int)
    requires
        0 <= w <= u32::MAX,
        0 <= h <= u32::MAX,
        4 * w * h <= usize::MAX,
    ensures
        traversal_fits(50, w, h),
{
    let nx = blocks_across(w, 50);
    let ny = blocks_across(h, 50);
    lemma_counts_positive(50, w, h);
    lemma_blocks_tight(w, 50);
    lemma_blocks_tight(h, 50);
    if nx > 0 && ny > 0 {
        assert(w >= 1 && h >= 1) by {
            if w == 0 {
                assert(0int / 50 == 0 && 0int % 50 == 0);
            }
            if h == 0 {
                assert(0int / 50 == 0 && 0int % 50 == 0);
            }
        }
        assert(50 * 50 * nx * ny <= (w + 49) * (h + 49)) by (nonlinear_arith)
            requires
                50 * nx <= w + 49,
                50 * ny <= h + 49,
                nx >= 0,
                ny >= 0,
        ;
        assert((w + 49) * (h + 49) <= u64::MAX) by (nonlinear_arith)
            requires
                1 <= w <= u32::MAX,
                1 <= h <= u32::MAX,
                4 * w * h <= u64::MAX,
        ;
    } else {
        assert(50 * 50 * nx * ny == 0) by (nonlinear_arith)
            requires
                nx == 0 || ny == 0,
        ;
    }
}

/// `⌈n / b⌉` tiles of side `b` reach less than a tile beyond `n`.
proof fn lemma_blocks_tight(n: int, b: int)
    requires
        b >= 1,
        n >= 0,
    ensures
        b * blocks_across(n, b) <= n + b - 1,
{
    lemma_fundamental_div_mod(n, b);
    lemma_mod_bound(n, b);
    if n % b != 0 {
        assert(b * (n / b + 1) == b * (n / b) + b) by (nonlinear_arith);
    }
}

/// The positions of a `w × h` raster.
pub open spec fn raster_positions(w: int, h: int) -> Set<(u32, u32)> {
    Set::new(|p: (u32, u32)| p.0 < w && p.1 < h)
}

/// A `w × h` raster has `w·h` positions.
proof fn lemma_raster_positions_len(w: int, h: int)
    requires
        0 <= w <= u32::MAX,
        0 <= h <= u32::MAX,
    ensures
        raster_positions(w, h).len() == w * h,
        raster_positions(w, h).finite(),
{
    assert(w * h >= 0) by (nonlinear_arith)
        requires
            w >= 0,
            h >= 0,
    ;
    let rm = Seq::new((w * h) as nat, |k: int| ((k % w) as u32, (k / w) as u32));
    assert forall|i: int, j: int|
        0 <= i < rm.len() && 0 <= j < rm.len() && i != j implies rm[i] != rm[j] by {
        assert(w > 0) by (nonlinear_arith)
            requires
                0 <= i < w * h,
                h >= 0,
        ;
        lemma_fundamental_div_mod(i, w);
        lemma_fundamental_div_mod(j, w);
        lemma_mod_bound(i, w);
        lemma_mod_bound(j, w);
        vstd::arithmetic::div_mod::lemma_div_pos_is_pos(i, w);
        vstd::arithmetic::div_mod::lemma_div_pos_is_pos(j, w);
        vstd::arithmetic::div_mod::lemma_multiply_divide_lt(i, w, h);
        vstd::arithmetic::div_mod::lemma_multiply_divide_lt(j, w, h);
    }
    assert forall|p: (u32, u32)| raster_positions(w, h).contains(p) implies rm.to_set().contains(
        p,
    ) by {
        let k = p.1 * w + p.0;
        assert(0 <= k < w * h) by (nonlinear_arith)
            requires
                k == p.1 * w + p.0,
                p.0 < w,
                p.1 < h,
                p.0 >= 0,
                p.1 >= 0,
        ;
        lemma_fundamental_div_mod_converse(k, w, p.1 as int, p.0 as int);
        assert(rm[k] == p);
    }
    assert forall|p: (u32, u32)| rm.to_set().contains(p) implies raster_positions(w, h).contains(
        p,
    ) by {
        let k = choose|k: int| 0 <= k < rm.len() && rm[k] == p;
        lemma_mod_bound(k, w);
        vstd::arithmetic::div_mod::lemma_div_pos_is_pos(k, w);
        vstd::arithmetic::div_mod::lemma_multiply_divide_lt(k, w, h);
    }
    assert(rm.to_set() =~= raster_positions(w, h));
    rm.unique_seq_to_set();
    vstd::seq_lib::seq_to_set_is_finite(rm);
}

/// The block-order traversal of a `w × h` raster has `w·h` positions.
proof fn lemma_block_order_len(b: int, w: int, h: int)
    requires
        traversal_fits(b, w, h),
    ensures
        block_order(b, w, h).len() == w * h,
{
    let s = block_order(b, w, h);
    let n = candidate_count(b, w, h) as nat;
    lemma_counts_positive(b, w, h);
    lemma_prefix_facts(b, w, h, n);
    let nx = blocks_across(w, b);
    let ny = blocks_across(h, b);
    assert forall|p: (u32, u32)| raster_positions(w, h).contains(p) implies s.to_set().contains(
        p,
    ) by {
        lemma_blocks_cover(w, b);
        lemma_blocks_cover(h, b);
        let (x, y) = p;
        lemma_candidate_of_step(b, nx, ny, x as int, y as int);
        let i = step_of(b, nx, x as int, y as int);
        let t = block_prefix(b, w, h, i as nat);
        assert(block_prefix(b, w, h, (i + 1) as nat) == t.push((x, y)));
        assert(t.push((x, y))[t.len() as int] == (x, y));
        lemma_prefix_grows(b, w, h, (i + 1) as nat, n, (x, y));
    }
    assert(s.to_set() =~= raster_positions(w, h));
    assert(s.no_duplicates()) by {
        assert forall|i: int, j: int| 0 <= i < s.len() && 0 <= j < s.len() && i != j implies s[i]
            != s[j] by {
            if i < j {
            } else {
            }
        }
    }
    s.unique_seq_to_set();
    lemma_raster_positions_len(w, h);
}

/// `⌈n / b⌉` tiles of side `b` cover a length of `n`.
proof fn lemma_blocks_cover(n: int, b: int)
    requires
        b >= 1,
        n >= 0,
    ensures
        n <= b * blocks_across(n, b),
{
    lemma_fundamental_div_mod(n, b);
    lemma_mod_bound(n, b);
    if n % b != 0 {
        assert(b * (n / b + 1) == b * (n / b) + b) by (nonlinear_arith);
    }
}

/// Two traversals with equal parameters visit the same positions in the same
/// order.
pub proof fn lemma_block_order_deterministic(
    b1: int,
    w1: int,
    h1: int,
    b2: int,
    w2: int,
    h2: int,
)
    requires
        b1 == b2,
        w1 == w2,
        h1 == h2,
    ensures
        block_order(b1, w1, h1) == block_order(b2, w2, h2),
{
}

proof fn lemma_counts_positive(b: int, w: int, h: int)
    requires
        b >= 1,
        w >= 0,
        h >= 0,
    ensures
        blocks_across(w, b) >= 0,
        blocks_across(h, b) >= 0,
        candidate_count(b, w, h) > 0 ==> blocks_across(w, b) >= 1 && blocks_across(h, b) >= 1,
        candidate_count(b, w, h) >= 0,
{
    vstd::arithmetic::div_mod::lemma_div_pos_is_pos(w, b);
    vstd::arithmetic::div_mod::lemma_div_pos_is_pos(h, b);
    let nx = blocks_across(w, b);
    let ny = blocks_across(h, b);
    assert(b * b * nx * ny >= 0) by (nonlinear_arith)
        requires
            nx >= 0,
            ny >= 0,
    ;
    if b * b * nx * ny > 0 {
        assert(nx != 0 && ny != 0) by (nonlinear_arith)
            requires
                b * b * nx * ny > 0,
        ;
    }
}

proof fn lemma_candidate_fits(b: int, nx: int, ny: int, i: int)
    requires
        b >= 1,
        nx >= 1,
        ny >= 1,
        0 <= i < b * b * nx * ny,
        b * b * nx * ny <= u64::MAX,
    ensures
        0 <= candidate(b, nx, i).0 < b * nx,
        0 <= candidate(b, nx, i).1 < b * ny,
        b * nx <= u64::MAX,
        b * ny <= u64::MAX,
{
    lemma_mod_bound(i, b);
    lemma_mod_bound(i / b, b);
    lemma_div_denominator(i, b, b);
    lemma_div_denominator(i, b * b, nx);
    let q = i / (b * b);
    lemma_mod_bound(q, nx);
    let a0 = i % b;
    let a1 = (i / b) % b;
    let a2 = q % nx;
    let a3 = i / (b * b * nx);
    assert(0 <= a3 < ny) by {
        vstd::arithmetic::div_mod::lemma_div_pos_is_pos(i, b * b * nx);
        assert(b * b * nx > 0) by (nonlinear_arith)
            requires
                b >= 1,
                nx >= 1,
        ;
        vstd::arithmetic::div_mod::lemma_multiply_divide_lt(i, b * b * nx, ny);
    }
    assert(a0 + b * a2 < b * nx && a1 + b * a3 < b * ny) by (nonlinear_arith)
        requires
            0 <= a0 < b,
            0 <= a1 < b,
            0 <= a2 < nx,
            0 <= a3 < ny,
    ;
    assert(b * nx <= b * b * nx * ny && b * ny <= b * b * nx * ny) by (nonlinear_arith)
        requires
            b >= 1,
            nx >= 1,
            ny >= 1,
    ;
    assert(0 <= a0 + b * a2 && 0 <= a1 + b * a3) by (nonlinear_arith)
        requires
            0 <= a0,
            0 <= a1,
            0 <= a2,
            0 <= a3,
            b >= 1,
    ;
}

} // verus!
