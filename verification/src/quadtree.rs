//! The region quadtree: bottom-up construction over a square bitmap,
//! per-region aggregate statistics, and the cutoff-driven approximate
//! query engine with bilinear corner interpolation.

use vstd::prelude::*;

use crate::CodecError;

verus! {

/// The four exact corner samples of a region, in the order
/// top-left, top-right, bottom-left, bottom-right.
pub type Quad = (u8, u8, u8, u8);

/// A pixel position `(x, y)`.
pub type Point = (usize, usize);

/// Aggregate statistics of a branch region: the minimum and maximum
/// sample anywhere in the subtree, the mean of the four corner samples,
/// and the side length of the square region.
pub struct QuadMeta {
    pub low: u8,
    pub average: u8,
    pub high: u8,
    pub size: usize,
}

/// A region quadtree over a square bitmap whose side is a power of two.
/// A `Leaf` holds the four samples of a 2x2 block directly; a `Branch`
/// holds its four quadrants (top-left, top-right, bottom-left,
/// bottom-right), the exact samples at its own bounding-box corners,
/// and its aggregate statistics.
pub enum Quadtree {
    Leaf(u8, u8, u8, u8),
    Branch(Box<Quadtree>, Box<Quadtree>, Box<Quadtree>, Box<Quadtree>, Quad, QuadMeta),
}

/// The smaller of two bytes.
pub open spec fn min2(a: u8, b: u8) -> u8 {
    if a <= b { a } else { b }
}

/// The larger of two bytes.
pub open spec fn max2(a: u8, b: u8) -> u8 {
    if a >= b { a } else { b }
}

/// The smallest of four bytes.
pub open spec fn min4(a: u8, b: u8, c: u8, d: u8) -> u8 {
    min2(min2(a, b), min2(c, d))
}

/// The largest of four bytes.
pub open spec fn max4(a: u8, b: u8, c: u8, d: u8) -> u8 {
    max2(max2(a, b), max2(c, d))
}

/// The mean of four bytes, rounded down.
pub open spec fn avg4(a: u8, b: u8, c: u8, d: u8) -> u8 {
    ((a as int + b as int + c as int + d as int) / 4) as u8
}

/// The spread (contrast) of four bytes: largest minus smallest.
pub open spec fn spec_range(a: u8, b: u8, c: u8, d: u8) -> int {
    max4(a, b, c, d) as int - min4(a, b, c, d) as int
}

/// Whether `n` is a power of two.
pub open spec fn is_pow2(n: int) -> bool
    decreases n,
{
    if n <= 0 {
        false
    } else if n == 1 {
        true
    } else {
        n % 2 == 0 && is_pow2(n / 2)
    }
}

/// Whether `rank` is a legal side length for a bitmap of `len` samples:
/// the bitmap is square with side `rank`, and `rank` is a power of two
/// at least 2.
pub open spec fn valid_rank(rank: int, len: int) -> bool {
    rank * rank == len && rank >= 2 && is_pow2(rank)
}

/// The sample of a row-major square bitmap at column `x`, row `y`.
pub open spec fn pix(px: Seq<u8>, rank: int, x: int, y: int) -> u8 {
    px[x + y * rank]
}

/// The side length of the region a node covers.
pub open spec fn node_size(t: Quadtree) -> int {
    match t {
        Quadtree::Leaf(..) => 2,
        Quadtree::Branch(_, _, _, _, _, m) => m.size as int,
    }
}

/// The minimum sample in a node's subtree.
pub open spec fn node_low(t: Quadtree) -> u8 {
    match t {
        Quadtree::Leaf(a, b, c, d) => min4(a, b, c, d),
        Quadtree::Branch(_, _, _, _, _, m) => m.low,
    }
}

/// The maximum sample in a node's subtree.
pub open spec fn node_high(t: Quadtree) -> u8 {
    match t {
        Quadtree::Leaf(a, b, c, d) => max4(a, b, c, d),
        Quadtree::Branch(_, _, _, _, _, m) => m.high,
    }
}

/// The mean of a node's four corner samples.
pub open spec fn node_average(t: Quadtree) -> u8 {
    match t {
        Quadtree::Leaf(a, b, c, d) => avg4(a, b, c, d),
        Quadtree::Branch(_, _, _, _, _, m) => m.average,
    }
}

/// Internal consistency of a tree on its own, without reference to a
/// bitmap: aggregates are ordered, every branch is the even split of
/// its four quadrants, and region sides are small enough for the query
/// arithmetic. Construction from a bitmap establishes it.
pub open spec fn shape_ok(t: Quadtree) -> bool
    decreases t,
{
    match t {
        Quadtree::Leaf(..) => true,
        Quadtree::Branch(a, b, c, d, _q, m) => {
            &&& m.low <= m.high
            &&& 4 <= m.size as int <= 0x1_0000_0000
            &&& node_size(*a) * 2 == m.size as int
            &&& node_size(*b) * 2 == m.size as int
            &&& node_size(*c) * 2 == m.size as int
            &&& node_size(*d) * 2 == m.size as int
            &&& shape_ok(*a)
            &&& shape_ok(*b)
            &&& shape_ok(*c)
            &&& shape_ok(*d)
        },
    }
}

/// Full well-formedness of a node with respect to the bitmap it was
/// built from: the node covers the square region of side `size` at
/// offset `(x, y)` of the row-major bitmap `px` with side `rank`.
/// A leaf holds the four exact samples of its 2x2 block; a branch holds
/// four well-formed quadrants, the exact samples at its own bounding
/// corners, the minimum and maximum over its children's aggregates, and
/// the mean of its corners.
pub open spec fn wf_node(t: Quadtree, px: Seq<u8>, rank: int, x: int, y: int, size: int) -> bool
    decreases size,
{
    &&& rank * rank == px.len()
    &&& 0 <= x
    &&& 0 <= y
    &&& x + size <= rank
    &&& y + size <= rank
    &&& is_pow2(size)
    &&& match t {
        Quadtree::Leaf(a, b, c, d) => {
            &&& size == 2
            &&& a == pix(px, rank, x, y)
            &&& b == pix(px, rank, x + 1, y)
            &&& c == pix(px, rank, x, y + 1)
            &&& d == pix(px, rank, x + 1, y + 1)
        },
        Quadtree::Branch(ta, tb, tc, td, q, m) => {
            let s = size / 2;
            &&& size >= 4
            &&& m.size as int == size
            &&& wf_node(*ta, px, rank, x, y, s)
            &&& wf_node(*tb, px, rank, x + s, y, s)
            &&& wf_node(*tc, px, rank, x, y + s, s)
            &&& wf_node(*td, px, rank, x + s, y + s, s)
            &&& q.0 == pix(px, rank, x, y)
            &&& q.1 == pix(px, rank, x + size - 1, y)
            &&& q.2 == pix(px, rank, x, y + size - 1)
            &&& q.3 == pix(px, rank, x + size - 1, y + size - 1)
            &&& m.low == min4(node_low(*ta), node_low(*tb), node_low(*tc), node_low(*td))
            &&& m.high == max4(node_high(*ta), node_high(*tb), node_high(*tc), node_high(*td))
            &&& m.average == avg4(q.0, q.1, q.2, q.3)
        },
    }
}

/// The smaller of two bytes.
fn umin(a: u8, b: u8) -> (r: u8)
    ensures
        r == min2(a, b),
{
    if a <= b { a } else { b }
}

/// The larger of two bytes.
fn umax(a: u8, b: u8) -> (r: u8)
    ensures
        r == max2(a, b),
{
    if a >= b { a } else { b }
}

/// The spread of four samples: largest minus smallest.
pub fn range(a: &u8, b: &u8, c: &u8, d: &u8) -> (r: u8)
    ensures
        r as int == spec_range(*a, *b, *c, *d),
{
    let hi = umax(umax(*a, *b), umax(*c, *d));
    let lo = umin(umin(*a, *b), umin(*c, *d));
    hi - lo
}

/// The mean of four samples, rounded down.
fn average(a: u8, b: u8, c: u8, d: u8) -> (r: u8)
    ensures
        r == avg4(a, b, c, d),
{
    ((a as u16 + b as u16 + c as u16 + d as u16) / 4) as u8
}

/// Linear interpolation between `a` and `b` at fraction `dx / size`,
/// rounded down: the value `(a * (size - dx) + b * dx) / size`.
pub open spec fn spec_lerp(a: u8, b: u8, dx: int, size: int) -> u8 {
    ((a * (size - dx) + b * dx) / size) as u8
}

/// Bilinear interpolation of a region's four corner samples at the
/// fractional position `(dx / size, dy / size)`: the top and bottom
/// edges are interpolated horizontally, then the two results
/// vertically.
pub open spec fn spec_bilinear(q: Quad, dx: int, dy: int, size: int) -> u8 {
    spec_lerp(spec_lerp(q.0, q.1, dx, size), spec_lerp(q.2, q.3, dx, size), dy, size)
}

/// What a query returns, for a node covering the region of side
/// `node_size(t)` at offset `(xo, yo)`.
///
/// At a leaf whose contrast is below the cutoff, the flat mean of the
/// four samples; otherwise the exact sample at the requested corner.
/// At a branch whose contrast is below the cutoff, the bilinear
/// interpolation of the stored corner samples, halved when the point
/// lies on the region's left or top edge; otherwise the query descends
/// into the quadrant containing the point.
pub open spec fn spec_get_deep(t: Quadtree, x: int, y: int, cutoff: u8, xo: int, yo: int) -> u8
    decreases t,
{
    match t {
        Quadtree::Leaf(a, b, c, d) => {
            if spec_range(a, b, c, d) < cutoff as int {
                avg4(a, b, c, d)
            } else {
                if x == xo {
                    if y == yo { a } else { c }
                } else {
                    if y == yo { b } else { d }
                }
            }
        },
        Quadtree::Branch(ta, tb, tc, td, q, m) => {
            let size = m.size as int;
            if (m.high as int - m.low as int) < (cutoff as int) {
                let v = spec_bilinear(q, x - xo, y - yo, size);
                if x == xo || y == yo { ((v as int) / 2) as u8 } else { v }
            } else {
                let s = size / 2;
                if x - xo < s {
                    if y - yo < s {
                        spec_get_deep(*ta, x, y, cutoff, xo, yo)
                    } else {
                        spec_get_deep(*tc, x, y, cutoff, xo, yo + s)
                    }
                } else {
                    if y - yo < s {
                        spec_get_deep(*tb, x, y, cutoff, xo + s, yo)
                    } else {
                        spec_get_deep(*td, x, y, cutoff, xo + s, yo + s)
                    }
                }
            }
        },
    }
}

/// Linear interpolation between `a` and `b` at fraction `dx / size`,
/// rounded down.
pub fn lerp(a: u8, b: u8, dx: u64, size: u64) -> (r: u8)
    requires
        0 < size <= 0x1_0000_0000,
        dx < size,
    ensures
        r == spec_lerp(a, b, dx as int, size as int),
{
    proof {
        assert((a as int) * ((size - dx) as int) <= 255 * 0x1_0000_0000) by (nonlinear_arith)
            requires
                a <= 255,
                0 < size - dx <= 0x1_0000_0000,
        ;
        assert((b as int) * (dx as int) <= 255 * 0x1_0000_0000) by (nonlinear_arith)
            requires
                b <= 255,
                0 <= dx < 0x1_0000_0000,
        ;
    }
    let acc: u64 = (a as u64) * (size - dx) + (b as u64) * dx;
    proof {
        assert(acc <= 255 * size) by (nonlinear_arith)
            requires
                acc == (a as int) * ((size - dx) as int) + (b as int) * (dx as int),
                a <= 255,
                b <= 255,
                0 <= dx < size,
        ;
        assert(acc / size <= 255) by (nonlinear_arith)
            requires
                acc <= 255 * size,
                0 < size,
        ;
    }
    (acc / size) as u8
}

/// Two powers of two are never closer than a factor of two: if `p < q`
/// then `2 * p <= q`.
pub proof fn lemma_pow2_gap(p: int, q: int)
    requires
        is_pow2(p),
        is_pow2(q),
        p < q,
    ensures
        2 * p <= q,
    decreases p,
{
    if p == 1 {
        assert(q >= 2);
    } else {
        lemma_pow2_gap(p / 2, q / 2);
    }
}

/// A bitmap length determines its side: two legal ranks for the same
/// length are equal.
pub proof fn lemma_rank_unique(r1: int, r2: int, len: int)
    requires
        valid_rank(r1, len),
        valid_rank(r2, len),
    ensures
        r1 == r2,
{
    if r1 < r2 {
        assert(r1 * r1 < r2 * r2) by (nonlinear_arith)
            requires
                0 < r1 < r2,
        ;
    }
    if r2 < r1 {
        assert(r2 * r2 < r1 * r1) by (nonlinear_arith)
            requires
                0 < r2 < r1,
        ;
    }
}

/// Reads the bitmap sample at column `x`, row `y`.
fn sample(pixels: &Vec<u8>, rank: usize, x: usize, y: usize) -> (r: u8)
    requires
        rank * rank == pixels@.len(),
        x < rank,
        y < rank,
    ensures
        r == pix(pixels@, rank as int, x as int, y as int),
{
    let n = pixels.len();
    proof {
        assert(y * rank + x < rank * rank) by (nonlinear_arith)
            requires
                x < rank,
                y < rank,
        ;
    }
    pixels[x + y * rank]
}

impl Quadtree {
    /// The minimum sample anywhere in this subtree.
    pub fn low(&self) -> (r: u8)
        ensures
            r == node_low(*self),
    {
        match self {
            Quadtree::Leaf(a, b, c, d) => umin(umin(*a, *b), umin(*c, *d)),
            Quadtree::Branch(_, _, _, _, _, meta) => meta.low,
        }
    }

    /// The maximum sample anywhere in this subtree.
    pub fn high(&self) -> (r: u8)
        ensures
            r == node_high(*self),
    {
        match self {
            Quadtree::Leaf(a, b, c, d) => umax(umax(*a, *b), umax(*c, *d)),
            Quadtree::Branch(_, _, _, _, _, meta) => meta.high,
        }
    }

    /// The mean of this node's four corner samples.
    pub fn average(&self) -> (r: u8)
        ensures
            r == node_average(*self),
    {
        match self {
            Quadtree::Leaf(a, b, c, d) => average(*a, *b, *c, *d),
            Quadtree::Branch(_, _, _, _, _, meta) => meta.average,
        }
    }

    /// The side length of the square region this node covers.
    pub fn side(&self) -> (r: usize)
        requires
            shape_ok(*self),
        ensures
            r as int == node_size(*self),
    {
        match self {
            Quadtree::Leaf(..) => 2,
            Quadtree::Branch(_, _, _, _, _, meta) => meta.size,
        }
    }

    /// Reconstructs the value at point `p` of the region at offset
    /// `self_offset`, descending while the contrast of the region is at
    /// least `cutoff` and interpolating once it falls below.
    pub fn get_deep(&self, p: Point, cutoff: u8, self_offset: Point) -> (r: u8)
        requires
            shape_ok(*self),
            self_offset.0 <= p.0 < self_offset.0 + node_size(*self),
            self_offset.1 <= p.1 < self_offset.1 + node_size(*self),
        ensures
            r == spec_get_deep(
                *self,
                p.0 as int,
                p.1 as int,
                cutoff,
                self_offset.0 as int,
                self_offset.1 as int,
            ),
        decreases *self,
    {
        let (x, y) = p;
        let (xo, yo) = self_offset;
        match self {
            Quadtree::Leaf(a, b, c, d) => {
                let contrast = range(a, b, c, d);
                if contrast < cutoff {
                    return average(*a, *b, *c, *d);
                }
                match (x == xo, y == yo) {
                    (true, true) => *a,
                    (false, true) => *b,
                    (true, false) => *c,
                    (false, false) => *d,
                }
            },
            Quadtree::Branch(a, b, c, d, quad, meta) => {
                let size = meta.size;
                let contrast = meta.high - meta.low;
                if contrast < cutoff {
                    let dx = (x - xo) as u64;
                    let dy = (y - yo) as u64;
                    let top = lerp(quad.0, quad.1, dx, size as u64);
                    let bottom = lerp(quad.2, quad.3, dx, size as u64);
                    let output = lerp(top, bottom, dy, size as u64);
                    return if x == xo || y == yo { output / 2 } else { output };
                }
                let s = size / 2;
                let left = (x - xo) < s;
                let top = (y - yo) < s;
                match (left, top) {
                    (true, true) => a.get_deep(p, cutoff, (xo, yo)),
                    (false, true) => b.get_deep(p, cutoff, (xo + s, yo)),
                    (true, false) => c.get_deep(p, cutoff, (xo, yo + s)),
                    (false, false) => d.get_deep(p, cutoff, (xo + s, yo + s)),
                }
            },
        }
    }

    /// The exact sample at point `p`: a query at cutoff zero, which
    /// always descends to the literal bitmap sample.
    pub fn get(&self, p: Point) -> (r: u8)
        requires
            shape_ok(*self),
            p.0 < node_size(*self),
            p.1 < node_size(*self),
        ensures
            r == spec_get_deep(*self, p.0 as int, p.1 as int, 0, 0, 0),
    {
        self.get_deep(p, 0, (0, 0))
    }

    /// The approximate value at point `p` under the given cutoff.
    pub fn get_approx(&self, p: Point, cutoff: u8) -> (r: u8)
        requires
            shape_ok(*self),
            p.0 < node_size(*self),
            p.1 < node_size(*self),
        ensures
            r == spec_get_deep(*self, p.0 as int, p.1 as int, cutoff, 0, 0),
    {
        self.get_deep(p, cutoff, (0, 0))
    }

    /// Builds the node for the square region of side `size` at offset
    /// `corner`: a leaf directly from the four samples of a 2x2 block,
    /// a branch from its four recursively built quadrants, the region's
    /// own corner samples, and the aggregates over the children.
    fn build(pixels: &Vec<u8>, rank: usize, corner: Point, size: usize) -> (r: Box<Quadtree>)
        requires
            rank * rank == pixels@.len(),
            is_pow2(size as int),
            size >= 2,
            corner.0 + size <= rank,
            corner.1 + size <= rank,
        ensures
            wf_node(*r, pixels@, rank as int, corner.0 as int, corner.1 as int, size as int),
        decreases size,
    {
        let (x, y) = corner;
        if size == 2 {
            return Box::new(Quadtree::Leaf(
                sample(pixels, rank, x, y),
                sample(pixels, rank, x + 1, y),
                sample(pixels, rank, x, y + 1),
                sample(pixels, rank, x + 1, y + 1),
            ));
        }
        let s = size / 2;
        let a = Self::build(pixels, rank, (x, y), s);
        let b = Self::build(pixels, rank, (x + s, y), s);
        let c = Self::build(pixels, rank, (x, y + s), s);
        let d = Self::build(pixels, rank, (x + s, y + s), s);
        let quad = (
            sample(pixels, rank, x, y),
            sample(pixels, rank, x + size - 1, y),
            sample(pixels, rank, x, y + size - 1),
            sample(pixels, rank, x + size - 1, y + size - 1),
        );
        let low = umin(umin(a.low(), b.low()), umin(c.low(), d.low()));
        let high = umax(umax(a.high(), b.high()), umax(c.high(), d.high()));
        let aver = average(quad.0, quad.1, quad.2, quad.3);
        let meta = QuadMeta { low, average: aver, high, size };
        Box::new(Quadtree::Branch(a, b, c, d, quad, meta))
    }

    /// Builds the tree for a square bitmap. The side is recovered from
    /// the sample count; if the count is not the square of a power of
    /// two at least 2, construction fails with `InvalidDimensions` and
    /// no tree is produced.
    pub fn new(pixels: &Vec<u8>) -> (r: Result<Box<Quadtree>, CodecError>)
        ensures
            match r {
                Ok(t) => {
                    &&& valid_rank(node_size(*t), pixels@.len() as int)
                    &&& wf_node(*t, pixels@, node_size(*t), 0, 0, node_size(*t))
                    &&& shape_ok(*t)
                },
                Err(e) => {
                    &&& e == CodecError::InvalidDimensions
                    &&& forall|rank: int| !valid_rank(rank, pixels@.len() as int)
                },
            },
    {
        let len = pixels.len();
        let mut r: u64 = 2;
        let mut rr: u128 = 4;
        proof {
            assert(is_pow2(2) && is_pow2(0x1_0000_0000)) by {
                reveal_with_fuel(is_pow2, 34);
            }
        }
        loop
            invariant
                is_pow2(r as int),
                2 <= r <= 0x1_0000_0000u64,
                rr == (r as int) * (r as int),
                len <= usize::MAX,
                forall|q: int| is_pow2(q) && 2 <= q < r ==> q * q < len as int,
            ensures
                is_pow2(r as int),
                2 <= r <= 0x1_0000_0000u64,
                rr == (r as int) * (r as int),
                rr >= len as int,
                forall|q: int| is_pow2(q) && 2 <= q < r ==> q * q < len as int,
            decreases 0x1_0000_0000 - r as int,
        {
            if rr >= len as u128 {
                break;
            }
            proof {
                if r == 0x1_0000_0000u64 {
                    // then rr == 2^64, which cannot be below a u64 length
                    assert(false) by (nonlinear_arith)
                        requires
                            (r as int) * (r as int) < len as int,
                            r == 0x1_0000_0000,
                            len <= 0xffff_ffff_ffff_ffffu64,
                    ;
                }
                assert(is_pow2(0x1_0000_0000)) by {
                    reveal_with_fuel(is_pow2, 34);
                }
                lemma_pow2_gap(r as int, 0x1_0000_0000);
                assert forall|q: int| is_pow2(q) && 2 <= q < 2 * r implies q * q < len as int by {
                    if q > r {
                        lemma_pow2_gap(r as int, q);
                    } else if q == r {
                        assert((r as int) * (r as int) < len as int);
                    }
                }
                assert((2 * r) * (2 * r) == 4 * ((r as int) * (r as int))) by (nonlinear_arith);
            }
            r = r * 2;
            rr = rr * 4;
        }
        if rr == (len as u128) {
            proof {
                assert(r < len) by (nonlinear_arith)
                    requires
                        (r as int) * (r as int) == len as int,
                        r >= 2,
                ;
            }
            let rank = r as usize;
            let t = Self::build(pixels, rank, (0, 0), rank);
            proof {
                lemma_wf_shape(*t, pixels@, rank as int, 0, 0, rank as int);
            }
            Ok(t)
        } else {
            proof {
                let l = pixels@.len() as int;
                let ri = r as int;
                if r >= 0x1_0000_0000u64 {
                    assert(ri * ri > l) by (nonlinear_arith)
                        requires
                            ri == 0x1_0000_0000,
                            l <= 0xffff_ffff_ffff_ffffu64 as int,
                    ;
                } else {
                    assert(ri * ri >= l && ri * ri != l);
                }
                assert forall|rank: int| !valid_rank(rank, l) by {
                    if is_pow2(rank) && rank >= 2 {
                        if rank > ri {
                            lemma_pow2_gap(ri, rank);
                            assert(rank * rank > l) by (nonlinear_arith)
                                requires
                                    rank >= 2 * ri,
                                    ri >= 2,
                                    ri * ri > l,
                            ;
                        }
                    }
                }
            }
            Err(CodecError::InvalidDimensions)
        }
    }
}

/// Law: every sample inside a well-formed node's region lies between
/// the node's `low` and `high` aggregates.
pub proof fn lemma_aggregate_bounds(
    t: Quadtree,
    px: Seq<u8>,
    rank: int,
    x: int,
    y: int,
    size: int,
    i: int,
    j: int,
)
    requires
        wf_node(t, px, rank, x, y, size),
        x <= i < x + size,
        y <= j < y + size,
    ensures
        node_low(t) <= pix(px, rank, i, j),
        pix(px, rank, i, j) <= node_high(t),
    decreases size,
{
    match t {
        Quadtree::Leaf(..) => {
            assert(i == x || i == x + 1);
            assert(j == y || j == y + 1);
        },
        Quadtree::Branch(ta, tb, tc, td, _q, _m) => {
            let s = size / 2;
            if i < x + s {
                if j < y + s {
                    lemma_aggregate_bounds(*ta, px, rank, x, y, s, i, j);
                } else {
                    lemma_aggregate_bounds(*tc, px, rank, x, y + s, s, i, j);
                }
            } else {
                if j < y + s {
                    lemma_aggregate_bounds(*tb, px, rank, x + s, y, s, i, j);
                } else {
                    lemma_aggregate_bounds(*td, px, rank, x + s, y + s, s, i, j);
                }
            }
        },
    }
}

/// Law: at cutoff zero a query never treats a region as smooth, so it
/// always returns the exact bitmap sample at the queried point.
pub proof fn lemma_exact_query(
    t: Quadtree,
    px: Seq<u8>,
    rank: int,
    x: int,
    y: int,
    size: int,
    i: int,
    j: int,
)
    requires
        wf_node(t, px, rank, x, y, size),
        x <= i < x + size,
        y <= j < y + size,
    ensures
        spec_get_deep(t, i, j, 0, x, y) == pix(px, rank, i, j),
    decreases size,
{
    match t {
        Quadtree::Leaf(..) => {
            assert(i == x || i == x + 1);
            assert(j == y || j == y + 1);
        },
        Quadtree::Branch(ta, tb, tc, td, _q, m) => {
            let s = size / 2;
            lemma_wf_low_high(t, px, rank, x, y, size);
            assert(m.high as int - m.low as int >= 0);
            if i < x + s {
                if j < y + s {
                    lemma_exact_query(*ta, px, rank, x, y, s, i, j);
                } else {
                    lemma_exact_query(*tc, px, rank, x, y + s, s, i, j);
                }
            } else {
                if j < y + s {
                    lemma_exact_query(*tb, px, rank, x + s, y, s, i, j);
                } else {
                    lemma_exact_query(*td, px, rank, x + s, y + s, s, i, j);
                }
            }
        },
    }
}

/// For a well-formed node the subtree minimum never exceeds the subtree
/// maximum.
pub proof fn lemma_wf_low_high(t: Quadtree, px: Seq<u8>, rank: int, x: int, y: int, size: int)
    requires
        wf_node(t, px, rank, x, y, size),
    ensures
        node_low(t) <= node_high(t),
    decreases size,
{
    match t {
        Quadtree::Leaf(..) => {},
        Quadtree::Branch(ta, _tb, _tc, _td, _q, _m) => {
            let s = size / 2;
            lemma_wf_low_high(*ta, px, rank, x, y, s);
        },
    }
}

/// Law: for every well-formed node, `low <= average <= high`. The
/// average is the mean of the node's four corner samples, and each
/// corner sample is a sample of the node's region.
pub proof fn lemma_low_average_high(t: Quadtree, px: Seq<u8>, rank: int, x: int, y: int, size: int)
    requires
        wf_node(t, px, rank, x, y, size),
    ensures
        node_low(t) <= node_average(t),
        node_average(t) <= node_high(t),
{
    match t {
        Quadtree::Leaf(..) => {},
        Quadtree::Branch(_ta, _tb, _tc, _td, q, _m) => {
            lemma_aggregate_bounds(t, px, rank, x, y, size, x, y);
            lemma_aggregate_bounds(t, px, rank, x, y, size, x + size - 1, y);
            lemma_aggregate_bounds(t, px, rank, x, y, size, x, y + size - 1);
            lemma_aggregate_bounds(t, px, rank, x, y, size, x + size - 1, y + size - 1);
        },
    }
}

/// A well-formed node is internally consistent: its recorded size is
/// the side of its region, its aggregates are ordered, and its quadrant
/// split is even.
pub proof fn lemma_wf_shape(t: Quadtree, px: Seq<u8>, rank: int, x: int, y: int, size: int)
    requires
        wf_node(t, px, rank, x, y, size),
        px.len() <= usize::MAX,
    ensures
        shape_ok(t),
        node_size(t) == size,
        node_low(t) <= node_high(t),
    decreases size,
{
    match t {
        Quadtree::Leaf(..) => {},
        Quadtree::Branch(ta, tb, tc, td, _q, _m) => {
            let s = size / 2;
            lemma_wf_shape(*ta, px, rank, x, y, s);
            lemma_wf_shape(*tb, px, rank, x + s, y, s);
            lemma_wf_shape(*tc, px, rank, x, y + s, s);
            lemma_wf_shape(*td, px, rank, x + s, y + s, s);
            assert(rank <= 0x1_0000_0000) by (nonlinear_arith)
                requires
                    rank * rank <= 0xffff_ffff_ffff_ffffu64 as int,
                    rank >= 0,
            ;
        },
    }
}

} // verus!

