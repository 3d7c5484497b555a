//! The channel pipeline: the fixed linear color transform between RGB
//! and luma/chroma, one region tree per channel, and the assembly of
//! the serialized payload and of the reconstructed pixel buffer.

use vstd::arithmetic::div_mod::{lemma_div_is_ordered, lemma_fundamental_div_mod, lemma_mod_bound};
use vstd::prelude::*;

use crate::quadtree::{
    is_pow2, lemma_rank_unique, lemma_wf_shape, node_size, shape_ok, spec_get_deep, valid_rank,
    wf_node, Point, Quadtree,
};
use crate::serialize::{
    bit_at, bits_of, build_leaf_data, build_leaf_index, bv_into_vec, bv_with_capacity,
    decode_channel, decoded_pixel, leaf_bytes, lemma_bit_at_slice, lemma_cutoff_monotone,
    lemma_div8_shift, lemma_measure_bounds, lemma_measure_data_cap, lemma_measure_decode,
    lemma_measure_frame, lemma_struct_bits_len, measure_structure, spec_measure,
    stream_decodes, struct_bits, unpacked, BitStream, Decoded,
};
use crate::CodecError;

verus! {

/// A pixel with an alpha channel carried through untouched.
pub type Pix = (u8, u8, u8, u8);

/// One cutoff per channel: luma, chroma-blue, chroma-red.
pub type Cutoff = (u8, u8, u8);

/// Clamps an integer to the byte range.
pub open spec fn clamp255(v: int) -> u8 {
    if v < 0 {
        0u8
    } else if v > 255 {
        255u8
    } else {
        v as u8
    }
}

/// Division by 1000 rounded to the nearest integer, halves upward.
pub open spec fn rdiv1000(n: int) -> int {
    (n + 500) / 1000
}

/// The luma of an RGB triple: `0.299 R + 0.587 G + 0.114 B` in
/// thousandths, rounded and clamped.
pub open spec fn spec_luma(r: u8, g: u8, b: u8) -> u8 {
    clamp255(rdiv1000(299 * r + 587 * g + 114 * b))
}

/// The chroma-blue of an RGB triple:
/// `-0.169 R - 0.331 G + 0.501 B + 128` in thousandths, rounded and
/// clamped.
pub open spec fn spec_cb(r: u8, g: u8, b: u8) -> u8 {
    clamp255(rdiv1000(-169 * r - 331 * g + 501 * b + 128000))
}

/// The chroma-red of an RGB triple:
/// `0.500 R - 0.419 G - 0.081 B + 128` in thousandths, rounded and
/// clamped.
pub open spec fn spec_cr(r: u8, g: u8, b: u8) -> u8 {
    clamp255(rdiv1000(500 * r - 419 * g - 81 * b + 128000))
}

/// The forward color transform, alpha carried through.
pub open spec fn spec_rgb_to_ycc(p: Pix) -> Pix {
    (spec_luma(p.0, p.1, p.2), spec_cb(p.0, p.1, p.2), spec_cr(p.0, p.1, p.2), p.3)
}

/// The red channel recovered from luma/chroma: `Y + 1.402 (Cr - 128)`.
pub open spec fn spec_inv_r(y: u8, cb: u8, cr: u8) -> u8 {
    clamp255(rdiv1000(1000 * y + 1402 * (cr - 128)))
}

/// The green channel recovered from luma/chroma:
/// `Y - 0.344 (Cb - 128) - 0.714 (Cr - 128)`.
pub open spec fn spec_inv_g(y: u8, cb: u8, cr: u8) -> u8 {
    clamp255(rdiv1000(1000 * y - 344 * (cb - 128) - 714 * (cr - 128)))
}

/// The blue channel recovered from luma/chroma: `Y + 1.772 (Cb - 128)`.
pub open spec fn spec_inv_b(y: u8, cb: u8, cr: u8) -> u8 {
    clamp255(rdiv1000(1000 * y + 1772 * (cb - 128)))
}

/// The inverse color transform, alpha carried through.
pub open spec fn spec_ycca_to_rgba(p: Pix) -> Pix {
    (spec_inv_r(p.0, p.1, p.2), spec_inv_g(p.0, p.1, p.2), spec_inv_b(p.0, p.1, p.2), p.3)
}

/// The rounded quotient stays within half a divisor of the exact one.
proof fn lemma_rdiv_bounds(n: int)
    ensures
        n + 500 - 999 <= 1000 * rdiv1000(n) <= n + 500,
{
    lemma_fundamental_div_mod(n + 500, 1000);
    lemma_mod_bound(n + 500, 1000);
}

/// Divides by 1000 rounding to the nearest integer, then clamps the
/// result to the byte range.
fn clamp_div(n: i64) -> (r: u8)
    requires
        -1_000_000 <= n <= 1_000_000,
    ensures
        r == clamp255(rdiv1000(n as int)),
{
    let t = n + 500;
    if t < 0 {
        proof {
            lemma_rdiv_bounds(n as int);
        }
        0
    } else {
        let q = (t as u64) / 1000;
        if q > 255 {
            255
        } else {
            q as u8
        }
    }
}

/// The forward color transform: RGB to luma/chroma-blue/chroma-red,
/// alpha carried through.
pub fn rgb_to_ycc(rgb: Pix) -> (out: Pix)
    ensures
        out == spec_rgb_to_ycc(rgb),
{
    let r = rgb.0 as i64;
    let g = rgb.1 as i64;
    let b = rgb.2 as i64;
    let ty: i64 = 299 * r + 587 * g + 114 * b;
    let tu: i64 = 501 * b + 128000 - 169 * r - 331 * g;
    let tv: i64 = 500 * r + 128000 - 419 * g - 81 * b;
    proof {
        assert(tu as int == -169 * (r as int) - 331 * (g as int) + 501 * (b as int) + 128000);
        assert(tv as int == 500 * (r as int) - 419 * (g as int) - 81 * (b as int) + 128000);
    }
    (clamp_div(ty), clamp_div(tu), clamp_div(tv), rgb.3)
}

/// The inverse color transform: luma/chroma back to RGB, alpha carried
/// through.
pub fn ycca_to_rgba(ycc: Pix) -> (out: Pix)
    ensures
        out == spec_ycca_to_rgba(ycc),
{
    let y = ycc.0 as i64;
    let cb = ycc.1 as i64 - 128;
    let cr = ycc.2 as i64 - 128;
    (
        clamp_div(1000 * y + 1402 * cr),
        clamp_div(1000 * y - 344 * cb - 714 * cr),
        clamp_div(1000 * y + 1772 * cb),
        ycc.3,
    )
}

/// The red channel of the inverse transform lands within one step of
/// the input channel, given the rounding windows of the quantized
/// values.
proof fn lemma_r_channel(ri: int, gi: int, bi: int, yq: int, crq: int)
    requires
        0 <= ri <= 255,
        0 <= gi <= 255,
        0 <= bi <= 255,
        299 * ri + 587 * gi + 114 * bi - 499 <= 1000 * yq <= 299 * ri + 587 * gi + 114 * bi + 500,
        500 * ri - 419 * gi - 81 * bi + 127501 <= 1000 * crq <= 500 * ri - 419 * gi - 81 * bi
            + 128500,
        0 <= yq <= 255,
        0 <= crq <= 256,
    ensures
        ({
            let crv: int = if crq == 256 { 255 } else { crq };
            let rv = clamp255(rdiv1000(1000 * yq + 1402 * (crv - 128)));
            ri - 1 <= rv <= ri + 1
        }),
{
    let crv: int = if crq == 256 { 255 } else { crq };
    lemma_rdiv_bounds(1000 * yq + 1402 * (crv - 128));
}

/// The green channel of the inverse transform lands within one step of
/// the input channel, given the rounding windows of the quantized
/// values.
proof fn lemma_g_channel(ri: int, gi: int, bi: int, yq: int, cbq: int, crq: int)
    requires
        0 <= ri <= 255,
        0 <= gi <= 255,
        0 <= bi <= 255,
        299 * ri + 587 * gi + 114 * bi - 499 <= 1000 * yq <= 299 * ri + 587 * gi + 114 * bi + 500,
        -169 * ri - 331 * gi + 501 * bi + 127501 <= 1000 * cbq <= -169 * ri - 331 * gi + 501 * bi
            + 128500,
        500 * ri - 419 * gi - 81 * bi + 127501 <= 1000 * crq <= 500 * ri - 419 * gi - 81 * bi
            + 128500,
        0 <= yq <= 255,
        0 <= cbq <= 256,
        0 <= crq <= 256,
    ensures
        ({
            let cbv: int = if cbq == 256 { 255 } else { cbq };
            let crv: int = if crq == 256 { 255 } else { crq };
            let gv = clamp255(rdiv1000(1000 * yq - 344 * (cbv - 128) - 714 * (crv - 128)));
            gi - 1 <= gv <= gi + 1
        }),
{
    let cbv: int = if cbq == 256 { 255 } else { cbq };
    let crv: int = if crq == 256 { 255 } else { crq };
    lemma_rdiv_bounds(1000 * yq - 344 * (cbv - 128) - 714 * (crv - 128));
}

/// The blue channel of the inverse transform lands within two steps of
/// the input channel, given the rounding windows of the quantized
/// values.
proof fn lemma_b_channel(ri: int, gi: int, bi: int, yq: int, cbq: int)
    requires
        0 <= ri <= 255,
        0 <= gi <= 255,
        0 <= bi <= 255,
        299 * ri + 587 * gi + 114 * bi - 499 <= 1000 * yq <= 299 * ri + 587 * gi + 114 * bi + 500,
        -169 * ri - 331 * gi + 501 * bi + 127501 <= 1000 * cbq <= -169 * ri - 331 * gi + 501 * bi
            + 128500,
        0 <= yq <= 255,
        0 <= cbq <= 256,
    ensures
        ({
            let cbv: int = if cbq == 256 { 255 } else { cbq };
            let bv = clamp255(rdiv1000(1000 * yq + 1772 * (cbv - 128)));
            bi - 2 <= bv <= bi + 2
        }),
{
    let cbv: int = if cbq == 256 { 255 } else { cbq };
    lemma_rdiv_bounds(1000 * yq + 1772 * (cbv - 128));
}

/// Law: converting an RGB triple to luma/chroma and back moves the red
/// and green channels by at most one step each way. The blue channel
/// never drops by more than one step but can overshoot by two, because
/// the stated inverse coefficient `1.772` slightly overshoots the
/// forward coefficient `0.501` and the two rounding steps can fall the
/// same way.
pub proof fn lemma_color_roundtrip(r: u8, g: u8, b: u8)
    ensures
        ({
            let y = spec_luma(r, g, b);
            let cb = spec_cb(r, g, b);
            let cr = spec_cr(r, g, b);
            &&& spec_inv_r(y, cb, cr) - r <= 1
            &&& r - spec_inv_r(y, cb, cr) <= 1
            &&& spec_inv_g(y, cb, cr) - g <= 1
            &&& g - spec_inv_g(y, cb, cr) <= 1
            &&& spec_inv_b(y, cb, cr) - b <= 2
            &&& b - spec_inv_b(y, cb, cr) <= 1
        }),
{
    let ri = r as int;
    let gi = g as int;
    let bi = b as int;
    let ty = 299 * ri + 587 * gi + 114 * bi;
    let tu = -169 * ri - 331 * gi + 501 * bi + 128000;
    let tv = 500 * ri - 419 * gi - 81 * bi + 128000;
    lemma_rdiv_bounds(ty);
    lemma_rdiv_bounds(tu);
    lemma_rdiv_bounds(tv);
    let yq = rdiv1000(ty);
    let cbq = rdiv1000(tu);
    let crq = rdiv1000(tv);
    assert(0 <= yq <= 255);
    assert(0 <= cbq <= 256);
    assert(0 <= crq <= 256);
    let y = spec_luma(r, g, b);
    let cb = spec_cb(r, g, b);
    let cr = spec_cr(r, g, b);
    assert(y as int == yq);
    assert(cb as int == if cbq == 256 { 255int } else { cbq });
    assert(cr as int == if crq == 256 { 255int } else { crq });
    lemma_r_channel(ri, gi, bi, yq, crq);
    lemma_g_channel(ri, gi, bi, yq, cbq, crq);
    lemma_b_channel(ri, gi, bi, yq, cbq);
    let cbv = cb as int;
    let nb = 1000 * (y as int) + 1772 * (cbv - 128);
    assert(bi - spec_inv_b(y, cb, cr) <= 1) by {
        lemma_fundamental_div_mod(ty + 500, 1000);
        lemma_mod_bound(ty + 500, 1000);
        lemma_fundamental_div_mod(tu + 500, 1000);
        lemma_mod_bound(tu + 500, 1000);
        lemma_fundamental_div_mod(nb + 500, 1000);
        lemma_mod_bound(nb + 500, 1000);
    }
}

/// Whether `n` is a power of two at least 2.
fn check_pow2(n: usize) -> (b: bool)
    ensures
        b == (is_pow2(n as int) && n >= 2),
{
    if n < 2 {
        return false;
    }
    let mut m = n;
    while m > 1 && m % 2 == 0
        invariant
            is_pow2(n as int) == is_pow2(m as int),
        decreases m,
    {
        m = m / 2;
    }
    m == 1
}

/// The luma plane of an interleaved RGB byte stream of `n` pixels.
pub open spec fn luma_plane(rgb: Seq<u8>, n: int) -> Seq<u8> {
    Seq::new(n as nat, |i: int| spec_luma(rgb[3 * i], rgb[3 * i + 1], rgb[3 * i + 2]))
}

/// The chroma-blue plane of an interleaved RGB byte stream of `n`
/// pixels.
pub open spec fn cb_plane(rgb: Seq<u8>, n: int) -> Seq<u8> {
    Seq::new(n as nat, |i: int| spec_cb(rgb[3 * i], rgb[3 * i + 1], rgb[3 * i + 2]))
}

/// The chroma-red plane of an interleaved RGB byte stream of `n`
/// pixels.
pub open spec fn cr_plane(rgb: Seq<u8>, n: int) -> Seq<u8> {
    Seq::new(n as nat, |i: int| spec_cr(rgb[3 * i], rgb[3 * i + 1], rgb[3 * i + 2]))
}

/// The byte length of a bit run once packed: one byte for every eight
/// bits begun.
pub open spec fn packed_len(nbits: int) -> int {
    (nbits + 7) / 8
}

/// Appends every byte of `src` to `dst`.
fn extend_bytes(dst: &mut Vec<u8>, src: &Vec<u8>)
    ensures
        final(dst)@ == old(dst)@ + src@,
{
    let ghost dst0 = old(dst)@;
    let mut i: usize = 0;
    while i < src.len()
        invariant
            i <= src@.len(),
            dst@ == dst0 + src@.subrange(0, i as int),
        decreases src@.len() - i,
    {
        let v = src[i];
        dst.push(v);
        i = i + 1;
        proof {
            assert(dst@ =~= dst0 + src@.subrange(0, i as int));
        }
    }
    proof {
        assert(dst0 + src@.subrange(0, src@.len() as int) =~= dst0 + src@);
    }
}

/// The compressor: one region tree per channel (luma, chroma-blue,
/// chroma-red), all built from bitmaps of the shared side `rank`. The
/// channel bitmaps themselves are kept only as ghost state.
pub struct ImgCompressor {
    pub lumin_root: Box<Quadtree>,
    pub c_blu_root: Box<Quadtree>,
    pub c_red_root: Box<Quadtree>,
    pub rank: u32,
    pub lumin_px: Ghost<Seq<u8>>,
    pub c_blu_px: Ghost<Seq<u8>>,
    pub c_red_px: Ghost<Seq<u8>>,
}

impl ImgCompressor {
    /// The compressor owns one tree per channel, each well-formed over
    /// its channel bitmap, and all three bitmaps are squares of the
    /// shared side `rank`.
    pub open spec fn wf(self) -> bool {
        &&& valid_rank(self.rank as int, self.lumin_px@.len() as int)
        &&& self.lumin_px@.len() <= usize::MAX
        &&& self.c_blu_px@.len() == self.lumin_px@.len()
        &&& self.c_red_px@.len() == self.lumin_px@.len()
        &&& wf_node(
            *self.lumin_root,
            self.lumin_px@,
            self.rank as int,
            0,
            0,
            self.rank as int,
        )
        &&& wf_node(
            *self.c_blu_root,
            self.c_blu_px@,
            self.rank as int,
            0,
            0,
            self.rank as int,
        )
        &&& wf_node(
            *self.c_red_root,
            self.c_red_px@,
            self.rank as int,
            0,
            0,
            self.rank as int,
        )
    }

    /// Splits an interleaved RGB buffer of `rank * rank` pixels into
    /// three channel planes and builds one region tree per plane. Fails
    /// with `InvalidDimensions` when `rank` is not a power of two at
    /// least 2 or the buffer is not `3 * rank * rank` bytes; no tree is
    /// produced then.
    pub fn new(rgb: &Vec<u8>, rank: usize) -> (res: Result<ImgCompressor, CodecError>)
        ensures
            match res {
                Ok(comp) => {
                    &&& rgb@.len() == 3 * (rank as int) * (rank as int)
                    &&& rank >= 2
                    &&& is_pow2(rank as int)
                    &&& comp.rank as int == rank as int
                    &&& comp.wf()
                    &&& comp.lumin_px@ == luma_plane(rgb@, (rank as int) * (rank as int))
                    &&& comp.c_blu_px@ == cb_plane(rgb@, (rank as int) * (rank as int))
                    &&& comp.c_red_px@ == cr_plane(rgb@, (rank as int) * (rank as int))
                },
                Err(e) => {
                    &&& e == CodecError::InvalidDimensions
                    &&& !(rgb@.len() == 3 * (rank as int) * (rank as int) && rank >= 2 && is_pow2(
                        rank as int,
                    ))
                },
            },
    {
        if !check_pow2(rank) {
            return Err(CodecError::InvalidDimensions);
        }
        let nbytes = rgb.len();
        if (rank as u64) > 0x1_0000_0000u64 {
            proof {
                assert(3 * (rank as int) * (rank as int) > usize::MAX) by (nonlinear_arith)
                    requires
                        rank as int > 0x1_0000_0000,
                        usize::MAX <= 0xffff_ffff_ffff_ffffu64,
                ;
            }
            return Err(CodecError::InvalidDimensions);
        }
        let ru = rank as u128;
        proof {
            assert(3 * ru * ru < 0x3_0000_0000_0000_0001u128) by (nonlinear_arith)
                requires
                    ru <= 0x1_0000_0000,
            ;
        }
        if 3 * ru * ru != nbytes as u128 {
            return Err(CodecError::InvalidDimensions);
        }
        proof {
            assert(3 * (ru as int) * (ru as int) == (rank as int) * (rank as int) * 3)
                by (nonlinear_arith)
                requires
                    ru as int == rank as int,
            ;
            assert((rank as int) * (rank as int) * 3 == rgb@.len());
            assert(rank as int <= 0xffff_ffff) by (nonlinear_arith)
                requires
                    3 * (rank as int) * (rank as int) <= 0xffff_ffff_ffff_ffffu64,
                    rank >= 2,
            ;
        }
        let n = rank * rank;
        proof {
            assert(3 * (n as int) == rgb@.len() && 3 * (rank as int) * (rank as int)
                == rgb@.len()) by (nonlinear_arith)
                requires
                    n as int == (rank as int) * (rank as int),
                    (rank as int) * (rank as int) * 3 == rgb@.len() as int,
            ;
        }
        let mut lumin: Vec<u8> = Vec::new();
        let mut c_blu: Vec<u8> = Vec::new();
        let mut c_red: Vec<u8> = Vec::new();
        let mut idx: usize = 0;
        while idx < n
            invariant
                3 * (n as int) == rgb@.len(),
                rgb@.len() <= usize::MAX,
                n as int == (rank as int) * (rank as int),
                idx <= n,
                lumin@.len() == idx,
                c_blu@.len() == idx,
                c_red@.len() == idx,
                forall|i: int|
                    0 <= i < idx ==> lumin@[i] == spec_luma(
                        rgb@[3 * i],
                        rgb@[3 * i + 1],
                        rgb@[3 * i + 2],
                    ),
                forall|i: int|
                    0 <= i < idx ==> c_blu@[i] == spec_cb(
                        rgb@[3 * i],
                        rgb@[3 * i + 1],
                        rgb@[3 * i + 2],
                    ),
                forall|i: int|
                    0 <= i < idx ==> c_red@[i] == spec_cr(
                        rgb@[3 * i],
                        rgb@[3 * i + 1],
                        rgb@[3 * i + 2],
                    ),
            decreases n - idx,
        {
            let px = rgb_to_ycc((rgb[3 * idx], rgb[3 * idx + 1], rgb[3 * idx + 2], 0));
            lumin.push(px.0);
            c_blu.push(px.1);
            c_red.push(px.2);
            idx = idx + 1;
        }
        proof {
            assert(lumin@ =~= luma_plane(rgb@, n as int));
            assert(c_blu@ =~= cb_plane(rgb@, n as int));
            assert(c_red@ =~= cr_plane(rgb@, n as int));
        }
        let lumin_root = match Quadtree::new(&lumin) {
            Ok(t) => t,
            Err(_) => {
                proof {
                    assert(valid_rank(rank as int, lumin@.len() as int));
                }
                return Err(CodecError::InvalidDimensions);
            },
        };
        let c_blu_root = match Quadtree::new(&c_blu) {
            Ok(t) => t,
            Err(_) => {
                proof {
                    assert(valid_rank(rank as int, c_blu@.len() as int));
                }
                return Err(CodecError::InvalidDimensions);
            },
        };
        let c_red_root = match Quadtree::new(&c_red) {
            Ok(t) => t,
            Err(_) => {
                proof {
                    assert(valid_rank(rank as int, c_red@.len() as int));
                }
                return Err(CodecError::InvalidDimensions);
            },
        };
        proof {
            lemma_rank_unique(node_size(*lumin_root), rank as int, n as int);
            lemma_rank_unique(node_size(*c_blu_root), rank as int, n as int);
            lemma_rank_unique(node_size(*c_red_root), rank as int, n as int);
        }
        Ok(
            ImgCompressor {
                lumin_root,
                c_blu_root,
                c_red_root,
                rank: rank as u32,
                lumin_px: Ghost(lumin@),
                c_blu_px: Ghost(c_blu@),
                c_red_px: Ghost(c_red@),
            },
        )
    }

    /// The number of pixels of one channel: `rank * rank`.
    fn predicted_capacity(&self) -> (r: usize)
        requires
            (self.rank as int) * (self.rank as int) <= usize::MAX,
        ensures
            r as int == (self.rank as int) * (self.rank as int),
    {
        (self.rank as usize) * (self.rank as usize)
    }

    /// The structure stream of one channel tree at a cutoff, as a bit
    /// stream.
    fn leaf_index(&self, quadtree_root: &Box<Quadtree>, cutoff: u8) -> (r: BitStream)
        requires
            shape_ok(**quadtree_root),
            0 <= node_size(**quadtree_root) <= self.rank as int,
            (self.rank as int) * (self.rank as int) <= usize::MAX / 8,
        ensures
            bits_of(r) == struct_bits(**quadtree_root, cutoff),
    {
        let mut quad_index = bv_with_capacity(self.predicted_capacity());
        proof {
            lemma_struct_bits_len(**quadtree_root, cutoff);
            assert(node_size(**quadtree_root) * node_size(**quadtree_root) <= (self.rank as int)
                * (self.rank as int)) by (nonlinear_arith)
                requires
                    0 <= node_size(**quadtree_root) <= self.rank as int,
            ;
        }
        build_leaf_index(&**quadtree_root, &mut quad_index, cutoff);
        proof {
            assert(bits_of(quad_index) =~= struct_bits(**quadtree_root, cutoff));
        }
        quad_index
    }

    /// The leaf-data stream of one channel tree at a cutoff.
    fn leaf_data(&self, quadtree_root: &Box<Quadtree>, cutoff: u8) -> (r: Vec<u8>)
        requires
            shape_ok(**quadtree_root),
            (self.rank as int) * (self.rank as int) <= usize::MAX,
        ensures
            r@ == leaf_bytes(**quadtree_root, cutoff),
    {
        let mut leaf_data: Vec<u8> = Vec::with_capacity(self.predicted_capacity());
        build_leaf_data(&**quadtree_root, &mut leaf_data, cutoff);
        proof {
            assert(leaf_data@ =~= leaf_bytes(**quadtree_root, cutoff));
        }
        leaf_data
    }

    /// Serializes all three channels at the given per-channel cutoffs
    /// into one payload: the three byte-packed structure streams in
    /// channel order, then the three leaf-data streams. The pad bits of
    /// each structure run's final partial byte are unconstrained.
    pub fn to_file(&self, cutoffs: Cutoff) -> (out: Vec<u8>)
        requires
            self.wf(),
            (self.rank as int) * (self.rank as int) <= usize::MAX / 8,
        ensures
            out@.len() == payload_len(*self, cutoffs),
            ({
                let sy = struct_bits(*self.lumin_root, cutoffs.0);
                let su = struct_bits(*self.c_blu_root, cutoffs.1);
                let sv = struct_bits(*self.c_red_root, cutoffs.2);
                let dy = leaf_bytes(*self.lumin_root, cutoffs.0);
                let du = leaf_bytes(*self.c_blu_root, cutoffs.1);
                let dv = leaf_bytes(*self.c_red_root, cutoffs.2);
                let o0 = packed_len(sy.len() as int);
                let o1 = o0 + packed_len(su.len() as int);
                let o2 = o1 + packed_len(sv.len() as int);
                let e0 = o2 + dy.len() as int;
                let e1 = e0 + du.len() as int;
                &&& forall|i: int| 0 <= i < sy.len() ==> sy[i] == bit_at(out@.subrange(0, o0), i)
                &&& forall|i: int| 0 <= i < su.len() ==> su[i] == bit_at(out@.subrange(o0, o1), i)
                &&& forall|i: int| 0 <= i < sv.len() ==> sv[i] == bit_at(out@.subrange(o1, o2), i)
                &&& out@.subrange(o2, e0) == dy
                &&& out@.subrange(e0, e1) == du
                &&& out@.subrange(e1, e1 + dv.len() as int) == dv
            }),
    {
        proof {
            lemma_wf_shape(
                *self.lumin_root,
                self.lumin_px@,
                self.rank as int,
                0,
                0,
                self.rank as int,
            );
            lemma_wf_shape(
                *self.c_blu_root,
                self.c_blu_px@,
                self.rank as int,
                0,
                0,
                self.rank as int,
            );
            lemma_wf_shape(
                *self.c_red_root,
                self.c_red_px@,
                self.rank as int,
                0,
                0,
                self.rank as int,
            );
        }
        let r_index = bv_into_vec(self.leaf_index(&self.lumin_root, cutoffs.0));
        let g_index = bv_into_vec(self.leaf_index(&self.c_blu_root, cutoffs.1));
        let b_index = bv_into_vec(self.leaf_index(&self.c_red_root, cutoffs.2));
        let r_leaf = self.leaf_data(&self.lumin_root, cutoffs.0);
        let g_leaf = self.leaf_data(&self.c_blu_root, cutoffs.1);
        let b_leaf = self.leaf_data(&self.c_red_root, cutoffs.2);
        let mut bytes = r_index;
        extend_bytes(&mut bytes, &g_index);
        extend_bytes(&mut bytes, &b_index);
        extend_bytes(&mut bytes, &r_leaf);
        extend_bytes(&mut bytes, &g_leaf);
        extend_bytes(&mut bytes, &b_leaf);
        proof {
            let sy = struct_bits(*self.lumin_root, cutoffs.0);
            let su = struct_bits(*self.c_blu_root, cutoffs.1);
            let sv = struct_bits(*self.c_red_root, cutoffs.2);
            let dy = leaf_bytes(*self.lumin_root, cutoffs.0);
            let du = leaf_bytes(*self.c_blu_root, cutoffs.1);
            let dv = leaf_bytes(*self.c_red_root, cutoffs.2);
            let o0 = packed_len(sy.len() as int);
            let o1 = o0 + packed_len(su.len() as int);
            let o2 = o1 + packed_len(sv.len() as int);
            let e0 = o2 + dy.len() as int;
            let e1 = e0 + du.len() as int;
            assert(bytes@.subrange(0, o0) =~= r_index@);
            assert(bytes@.subrange(o0, o1) =~= g_index@);
            assert(bytes@.subrange(o1, o2) =~= b_index@);
            assert(bytes@.subrange(o2, e0) =~= r_leaf@);
            assert(bytes@.subrange(e0, e1) =~= g_leaf@);
            assert(bytes@.subrange(e1, e1 + dv.len() as int) =~= b_leaf@);
        }
        bytes
    }

    /// Reconstructs the full RGB pixel buffer at the given per-channel
    /// cutoffs, row-major with three bytes per pixel, by querying the
    /// three channel trees at every point and inverting the color
    /// transform.
    pub fn to_image(&self, cutoffs: Cutoff) -> (out: Vec<u8>)
        requires
            self.wf(),
        ensures
            out@.len() == 3 * (self.rank as int) * (self.rank as int),
            forall|i: int, j: int|
                0 <= i < self.rank as int && 0 <= j < self.rank as int ==> {
                    let px = #[trigger] approx_pixel(*self, i, j, cutoffs);
                    &&& out@[3 * (i + j * (self.rank as int))] == px.0
                    &&& out@[3 * (i + j * (self.rank as int)) + 1] == px.1
                    &&& out@[3 * (i + j * (self.rank as int)) + 2] == px.2
                },
    {
        proof {
            lemma_wf_shape(
                *self.lumin_root,
                self.lumin_px@,
                self.rank as int,
                0,
                0,
                self.rank as int,
            );
            lemma_wf_shape(
                *self.c_blu_root,
                self.c_blu_px@,
                self.rank as int,
                0,
                0,
                self.rank as int,
            );
            lemma_wf_shape(
                *self.c_red_root,
                self.c_red_px@,
                self.rank as int,
                0,
                0,
                self.rank as int,
            );
        }
        let rank = self.rank as usize;
        let ghost ri = rank as int;
        let mut out: Vec<u8> = Vec::new();
        let mut j: usize = 0;
        while j < rank
            invariant
                self.wf(),
                shape_ok(*self.lumin_root),
                shape_ok(*self.c_blu_root),
                shape_ok(*self.c_red_root),
                node_size(*self.lumin_root) == ri,
                node_size(*self.c_blu_root) == ri,
                node_size(*self.c_red_root) == ri,
                ri == rank as int,
                ri == self.rank as int,
                ri * ri <= usize::MAX,
                j <= rank,
                out@.len() == 3 * ((j as int) * ri),
                forall|i2: int, j2: int|
                    0 <= i2 < ri && 0 <= j2 < j ==> {
                        let px = #[trigger] approx_pixel(*self, i2, j2, cutoffs);
                        &&& out@[3 * (i2 + j2 * ri)] == px.0
                        &&& out@[3 * (i2 + j2 * ri) + 1] == px.1
                        &&& out@[3 * (i2 + j2 * ri) + 2] == px.2
                    },
            decreases rank - j,
        {
            let mut i: usize = 0;
            proof {
                assert(3 * ((j as int) * ri) + 3 * ri <= 3 * (ri * ri)) by (nonlinear_arith)
                    requires
                        0 <= (j as int) && (j as int) < ri,
                ;
            }
            while i < rank
                invariant
                    self.wf(),
                    shape_ok(*self.lumin_root),
                    shape_ok(*self.c_blu_root),
                    shape_ok(*self.c_red_root),
                    node_size(*self.lumin_root) == ri,
                    node_size(*self.c_blu_root) == ri,
                    node_size(*self.c_red_root) == ri,
                    ri == rank as int,
                    ri == self.rank as int,
                    i <= rank,
                    j < rank,
                    3 * ((j as int) * ri) + 3 * ri <= 3 * (ri * ri),
                    ri * ri <= usize::MAX,
                    out@.len() == 3 * ((j as int) * ri) + 3 * (i as int),
                    forall|i2: int, j2: int|
                        0 <= i2 < ri && 0 <= j2 < j ==> {
                            let px = #[trigger] approx_pixel(*self, i2, j2, cutoffs);
                            &&& out@[3 * (i2 + j2 * ri)] == px.0
                            &&& out@[3 * (i2 + j2 * ri) + 1] == px.1
                            &&& out@[3 * (i2 + j2 * ri) + 2] == px.2
                        },
                    forall|i2: int|
                        0 <= i2 < i ==> {
                            let px = #[trigger] approx_pixel(*self, i2, j as int, cutoffs);
                            &&& out@[3 * (i2 + (j as int) * ri)] == px.0
                            &&& out@[3 * (i2 + (j as int) * ri) + 1] == px.1
                            &&& out@[3 * (i2 + (j as int) * ri) + 2] == px.2
                        },
                decreases rank - i,
            {
                let p = (i, j);
                let px = ycca_to_rgba(
                    (
                        self.lumin_root.get_approx(p, cutoffs.0),
                        self.c_blu_root.get_approx(p, cutoffs.1),
                        self.c_red_root.get_approx(p, cutoffs.2),
                        0,
                    ),
                );
                out.push(px.0);
                out.push(px.1);
                out.push(px.2);
                i = i + 1;
                proof {
                    assert forall|i2: int, j2: int|
                        0 <= i2 < ri && 0 <= j2 < j implies {
                        let px = approx_pixel(*self, i2, j2, cutoffs);
                        &&& #[trigger] out@[3 * (i2 + j2 * ri)] == px.0
                        &&& out@[3 * (i2 + j2 * ri) + 1] == px.1
                        &&& out@[3 * (i2 + j2 * ri) + 2] == px.2
                    } by {
                        assert(3 * (i2 + j2 * ri) + 3 <= 3 * ((j as int) * ri)) by (
                        nonlinear_arith)
                            requires
                                0 <= i2 < ri,
                                0 <= j2 < j,
                        ;
                    }
                }
            }
            j = j + 1;
            proof {
                assert(3 * ((j - 1) as int * ri) + 3 * ri == 3 * ((j as int) * ri)) by (
                nonlinear_arith);
                assert forall|i2: int, j2: int|
                    0 <= i2 < ri && 0 <= j2 < j implies {
                    let px = approx_pixel(*self, i2, j2, cutoffs);
                    &&& #[trigger] out@[3 * (i2 + j2 * ri)] == px.0
                    &&& out@[3 * (i2 + j2 * ri) + 1] == px.1
                    &&& out@[3 * (i2 + j2 * ri) + 2] == px.2
                } by {
                    assert(3 * (i2 + j2 * ri) + 3 <= 3 * ((j as int) * ri)) by (nonlinear_arith)
                        requires
                            0 <= i2 < ri,
                            0 <= j2 < j,
                    ;
                }
            }
        }
        proof {
            assert(3 * ((rank as int) * ri) == 3 * ri * ri) by (nonlinear_arith)
                requires
                    ri == rank as int,
            ;
        }
        out
    }

    /// The approximate RGB value at one point, or `OutOfBounds` exactly
    /// when the point lies outside the square `[0, rank) x [0, rank)`.
    pub fn pixel_at(&self, p: Point, cutoffs: Cutoff) -> (res: Result<(u8, u8, u8), CodecError>)
        requires
            self.wf(),
        ensures
            match res {
                Ok(px) => {
                    &&& (p.0 as int) < self.rank as int
                    &&& (p.1 as int) < self.rank as int
                    &&& ({
                        let v = approx_pixel(*self, p.0 as int, p.1 as int, cutoffs);
                        px == (v.0, v.1, v.2)
                    })
                },
                Err(e) => {
                    &&& e == CodecError::OutOfBounds
                    &&& !((p.0 as int) < self.rank as int && (p.1 as int) < self.rank as int)
                },
            },
    {
        proof {
            lemma_wf_shape(
                *self.lumin_root,
                self.lumin_px@,
                self.rank as int,
                0,
                0,
                self.rank as int,
            );
            lemma_wf_shape(
                *self.c_blu_root,
                self.c_blu_px@,
                self.rank as int,
                0,
                0,
                self.rank as int,
            );
            lemma_wf_shape(
                *self.c_red_root,
                self.c_red_px@,
                self.rank as int,
                0,
                0,
                self.rank as int,
            );
        }
        let rank = self.rank as usize;
        if p.0 >= rank || p.1 >= rank {
            return Err(CodecError::OutOfBounds);
        }
        let px = ycca_to_rgba(
            (
                self.lumin_root.get_approx(p, cutoffs.0),
                self.c_blu_root.get_approx(p, cutoffs.1),
                self.c_red_root.get_approx(p, cutoffs.2),
                0,
            ),
        );
        Ok((px.0, px.1, px.2))
    }
}

/// The reconstructed pixel at `(i, j)` under the given cutoffs: each
/// channel tree queried at the point, then the inverse color transform,
/// with a zero alpha.
pub open spec fn approx_pixel(comp: ImgCompressor, i: int, j: int, cutoffs: Cutoff) -> Pix {
    spec_ycca_to_rgba(
        (
            spec_get_deep(*comp.lumin_root, i, j, cutoffs.0, 0, 0),
            spec_get_deep(*comp.c_blu_root, i, j, cutoffs.1, 0, 0),
            spec_get_deep(*comp.c_red_root, i, j, cutoffs.2, 0, 0),
            0u8,
        ),
    )
}

/// The byte length of the serialized payload at the given cutoffs: the
/// three byte-packed structure streams, then the three leaf-data
/// streams.
pub open spec fn payload_len(comp: ImgCompressor, cutoffs: Cutoff) -> int {
    packed_len(struct_bits(*comp.lumin_root, cutoffs.0).len() as int) + packed_len(
        struct_bits(*comp.c_blu_root, cutoffs.1).len() as int,
    ) + packed_len(struct_bits(*comp.c_red_root, cutoffs.2).len() as int) + leaf_bytes(
        *comp.lumin_root,
        cutoffs.0,
    ).len() + leaf_bytes(*comp.c_blu_root, cutoffs.1).len() + leaf_bytes(
        *comp.c_red_root,
        cutoffs.2,
    ).len()
}

/// Where the three structure runs of a payload end (absolute bit
/// cursors, found by walking each run) and how many data bytes each
/// channel calls for. Each structure run begins at the byte boundary
/// after the previous one.
pub open spec fn spec_split(payload: Seq<u8>, rank: int) -> Option<(int, int, int, int, int, int)> {
    let bits = unpacked(payload, 8 * payload.len() as int);
    match spec_measure(bits, 0, rank) {
        Some(m1) => match spec_measure(bits, 8 * packed_len(m1.0), rank) {
            Some(m2) => match spec_measure(bits, 8 * packed_len(m2.0), rank) {
                Some(m3) => Some((m1.0, m2.0, m3.0, m1.1, m2.1, m3.1)),
                None => None,
            },
            None => None,
        },
        None => None,
    }
}

/// One channel of a payload decodes to the given bitmap: a region
/// decodes from the structure run `[sa, sb)` (in bytes) and the data
/// run `[da, db)`, and the bitmap is its rendering.
pub open spec fn channel_decodes(
    payload: Seq<u8>,
    sa: int,
    sb: int,
    da: int,
    db: int,
    rank: int,
    plane: Seq<u8>,
) -> bool {
    exists|d: Decoded|
        #[trigger] stream_decodes(
            unpacked(payload.subrange(sa, sb), 8 * (sb - sa)),
            0,
            payload.subrange(da, db),
            0,
            rank,
            d,
        ) && forall|i: int, j: int|
            0 <= i < rank && 0 <= j < rank ==> plane[i + j * rank] == decoded_pixel(d, i, j, rank)
}

/// Copies the bytes `[from, to)` of a vector.
fn copy_range(src: &Vec<u8>, from: usize, to: usize) -> (r: Vec<u8>)
    requires
        from <= to <= src@.len(),
    ensures
        r@ == src@.subrange(from as int, to as int),
{
    let mut out: Vec<u8> = Vec::new();
    let mut i: usize = from;
    while i < to
        invariant
            from <= i <= to <= src@.len(),
            out@ == src@.subrange(from as int, i as int),
        decreases to - i,
    {
        let v = src[i];
        out.push(v);
        i = i + 1;
        proof {
            assert(out@ =~= src@.subrange(from as int, i as int));
        }
    }
    out
}

/// Disassembles a serialized payload of a known `rank` back into its
/// three channel bitmaps. The three structure runs are found by
/// walking them, the three data runs by the byte counts the walks call
/// for; a collapsed region fills its square with its single byte, a
/// literal leaf fills its four samples. Fails with `FormatError` where
/// a walk fails or the six runs do not make up the payload exactly.
#[verifier::rlimit(60)]
pub fn decode_payload(payload: &Vec<u8>, rank: usize) -> (r: Result<
    (Vec<u8>, Vec<u8>, Vec<u8>),
    CodecError,
>)
    requires
        is_pow2(rank as int),
        rank >= 2,
        (rank as int) * (rank as int) <= usize::MAX / 8,
        payload@.len() <= usize::MAX / 8,
    ensures
        match spec_split(payload@, rank as int) {
            Some(sp) => {
                let o1 = packed_len(sp.0);
                let o2 = packed_len(sp.1);
                let s_end = packed_len(sp.2);
                if s_end + sp.3 + sp.4 + sp.5 == payload@.len() {
                    match r {
                        Ok(planes) => {
                            &&& planes.0@.len() == (rank as int) * (rank as int)
                            &&& planes.1@.len() == (rank as int) * (rank as int)
                            &&& planes.2@.len() == (rank as int) * (rank as int)
                            &&& channel_decodes(
                                payload@,
                                0,
                                o1,
                                s_end,
                                s_end + sp.3,
                                rank as int,
                                planes.0@,
                            )
                            &&& channel_decodes(
                                payload@,
                                o1,
                                o2,
                                s_end + sp.3,
                                s_end + sp.3 + sp.4,
                                rank as int,
                                planes.1@,
                            )
                            &&& channel_decodes(
                                payload@,
                                o2,
                                s_end,
                                s_end + sp.3 + sp.4,
                                s_end + sp.3 + sp.4 + sp.5,
                                rank as int,
                                planes.2@,
                            )
                        },
                        Err(_) => false,
                    }
                } else {
                    r == Err::<(Vec<u8>, Vec<u8>, Vec<u8>), CodecError>(CodecError::FormatError)
                }
            },
            None => r == Err::<(Vec<u8>, Vec<u8>, Vec<u8>), CodecError>(CodecError::FormatError),
        },
{
    let ghost bits = unpacked(payload@, 8 * payload@.len() as int);
    let nbytes = payload.len();
    let (e1, d1) = match measure_structure(payload, 0, rank) {
        Ok(v) => v,
        Err(e) => {
            return Err(e);
        },
    };
    proof {
        lemma_measure_bounds(bits, 0, rank as int);
        lemma_measure_data_cap(bits, 0, rank as int);
        assert(8 * (usize::MAX / 8) <= usize::MAX - 7);
        lemma_div8_shift(7, nbytes as int);
    }
    let o1 = (e1 + 7) / 8;
    let (e2, d2) = match measure_structure(payload, 8 * o1, rank) {
        Ok(v) => v,
        Err(e) => {
            return Err(e);
        },
    };
    proof {
        lemma_measure_bounds(bits, 8 * (o1 as int), rank as int);
        lemma_measure_data_cap(bits, 8 * (o1 as int), rank as int);
    }
    let o2 = (e2 + 7) / 8;
    let (e3, d3) = match measure_structure(payload, 8 * o2, rank) {
        Ok(v) => v,
        Err(e) => {
            return Err(e);
        },
    };
    proof {
        lemma_measure_bounds(bits, 8 * (o2 as int), rank as int);
        lemma_measure_data_cap(bits, 8 * (o2 as int), rank as int);
        // each run's final byte lies within the payload
        lemma_div8_shift(e1 as int - 8 * (o1 as int) + 7, o1 as int);
        lemma_div8_shift(e2 as int - 8 * (o1 as int) + 7, o1 as int);
        lemma_div8_shift(e2 as int - 8 * (o2 as int) + 7, o2 as int);
        lemma_div8_shift(e3 as int - 8 * (o2 as int) + 7, o2 as int);
    }
    let s_end = (e3 + 7) / 8;
    if !(d1 <= nbytes && d2 <= nbytes && d3 <= nbytes && s_end <= nbytes && s_end + d1 + d2 + d3
        == nbytes) {
        return Err(CodecError::FormatError);
    }
    let sseg1 = copy_range(payload, 0, o1);
    let sseg2 = copy_range(payload, o1, o2);
    let sseg3 = copy_range(payload, o2, s_end);
    let dseg1 = copy_range(payload, s_end, s_end + d1);
    let dseg2 = copy_range(payload, s_end + d1, s_end + d1 + d2);
    let dseg3 = copy_range(payload, s_end + d1 + d2, s_end + d1 + d2 + d3);
    proof {
        let ri = rank as int;
        let b1 = unpacked(sseg1@, 8 * (o1 as int));
        assert forall|k: int| 0 <= k < b1.len() implies b1[k] == bits[0 + k] by {
            lemma_bit_at_slice(payload@, 0, o1 as int, k);
        }
        lemma_measure_frame(bits, b1, 0, 0, ri);
        lemma_measure_decode(b1, 0, dseg1@, 0, ri);
        let b2 = unpacked(sseg2@, 8 * (o2 as int - o1 as int));
        assert forall|k: int| 0 <= k < b2.len() implies b2[k] == bits[8 * (o1 as int) + k] by {
            lemma_bit_at_slice(payload@, o1 as int, o2 as int, k);
        }
        lemma_measure_frame(bits, b2, 8 * (o1 as int), 0, ri);
        lemma_measure_decode(b2, 0, dseg2@, 0, ri);
        let b3 = unpacked(sseg3@, 8 * (s_end as int - o2 as int));
        assert forall|k: int| 0 <= k < b3.len() implies b3[k] == bits[8 * (o2 as int) + k] by {
            lemma_bit_at_slice(payload@, o2 as int, s_end as int, k);
        }
        lemma_measure_frame(bits, b3, 8 * (o2 as int), 0, ri);
        lemma_measure_decode(b3, 0, dseg3@, 0, ri);
    }
    let p1 = match decode_channel(&sseg1, &dseg1, rank) {
        Ok(v) => v,
        Err(_) => {
            proof {
                assert(false);
            }
            return Err(CodecError::FormatError);
        },
    };
    let p2 = match decode_channel(&sseg2, &dseg2, rank) {
        Ok(v) => v,
        Err(_) => {
            proof {
                assert(false);
            }
            return Err(CodecError::FormatError);
        },
    };
    let p3 = match decode_channel(&sseg3, &dseg3, rank) {
        Ok(v) => v,
        Err(_) => {
            proof {
                assert(false);
            }
            return Err(CodecError::FormatError);
        },
    };
    Ok((p1, p2, p3))
}

/// Law: every payload the compressor serializes disassembles cleanly.
/// For any byte sequence meeting `to_file`'s contract, the three
/// structure walks succeed and find exactly the runs the encoder wrote,
/// and the six runs make up the payload exactly — so `decode_payload`
/// accepts it.
pub proof fn lemma_payload_split(comp: ImgCompressor, cutoffs: Cutoff, out: Seq<u8>)
    requires
        comp.wf(),
        out.len() == payload_len(comp, cutoffs),
        ({
            let sy = struct_bits(*comp.lumin_root, cutoffs.0);
            let su = struct_bits(*comp.c_blu_root, cutoffs.1);
            let sv = struct_bits(*comp.c_red_root, cutoffs.2);
            let o0 = packed_len(sy.len() as int);
            let o1 = o0 + packed_len(su.len() as int);
            let o2 = o1 + packed_len(sv.len() as int);
            &&& forall|i: int| 0 <= i < sy.len() ==> sy[i] == bit_at(out.subrange(0, o0), i)
            &&& forall|i: int| 0 <= i < su.len() ==> su[i] == bit_at(out.subrange(o0, o1), i)
            &&& forall|i: int| 0 <= i < sv.len() ==> sv[i] == bit_at(out.subrange(o1, o2), i)
        }),
    ensures
        ({
            let sy = struct_bits(*comp.lumin_root, cutoffs.0);
            let su = struct_bits(*comp.c_blu_root, cutoffs.1);
            let sv = struct_bits(*comp.c_red_root, cutoffs.2);
            let dy = leaf_bytes(*comp.lumin_root, cutoffs.0);
            let du = leaf_bytes(*comp.c_blu_root, cutoffs.1);
            let dv = leaf_bytes(*comp.c_red_root, cutoffs.2);
            let o0 = packed_len(sy.len() as int);
            let o1 = o0 + packed_len(su.len() as int);
            let e1 = sy.len() as int;
            let e2 = 8 * o0 + su.len() as int;
            let e3 = 8 * o1 + sv.len() as int;
            &&& spec_split(out, comp.rank as int) == Some(
                (e1, e2, e3, dy.len() as int, du.len() as int, dv.len() as int),
            )
            &&& packed_len(e3) + dy.len() + du.len() + dv.len() == out.len()
        }),
{
    let rank = comp.rank as int;
    let bits = unpacked(out, 8 * out.len() as int);
    let sy = struct_bits(*comp.lumin_root, cutoffs.0);
    let su = struct_bits(*comp.c_blu_root, cutoffs.1);
    let sv = struct_bits(*comp.c_red_root, cutoffs.2);
    let dy = leaf_bytes(*comp.lumin_root, cutoffs.0);
    let du = leaf_bytes(*comp.c_blu_root, cutoffs.1);
    let dv = leaf_bytes(*comp.c_red_root, cutoffs.2);
    let o0 = packed_len(sy.len() as int);
    let o1 = o0 + packed_len(su.len() as int);
    let o2 = o1 + packed_len(sv.len() as int);
    lemma_wf_shape(*comp.lumin_root, comp.lumin_px@, rank, 0, 0, rank);
    lemma_wf_shape(*comp.c_blu_root, comp.c_blu_px@, rank, 0, 0, rank);
    lemma_wf_shape(*comp.c_red_root, comp.c_red_px@, rank, 0, 0, rank);
    crate::serialize::lemma_lockstep_root(*comp.lumin_root, cutoffs.0);
    crate::serialize::lemma_lockstep_root(*comp.c_blu_root, cutoffs.1);
    crate::serialize::lemma_lockstep_root(*comp.c_red_root, cutoffs.2);
    crate::serialize::lemma_decode_to_measure(sy, 0, dy, 0, rank);
    crate::serialize::lemma_decode_to_measure(su, 0, du, 0, rank);
    crate::serialize::lemma_decode_to_measure(sv, 0, dv, 0, rank);
    assert forall|k: int| 0 <= k < sy.len() implies sy[k] == bits[0 + k] by {
        lemma_bit_at_slice(out, 0, o0, k);
    }
    crate::serialize::lemma_measure_embed(bits, sy, 0, 0, rank);
    assert forall|k: int| 0 <= k < su.len() implies su[k] == bits[8 * o0 + k] by {
        lemma_bit_at_slice(out, o0, o1, k);
    }
    crate::serialize::lemma_measure_embed(bits, su, 8 * o0, 0, rank);
    assert forall|k: int| 0 <= k < sv.len() implies sv[k] == bits[8 * o1 + k] by {
        lemma_bit_at_slice(out, o1, o2, k);
    }
    crate::serialize::lemma_measure_embed(bits, sv, 8 * o1, 0, rank);
    lemma_div8_shift(su.len() as int + 7, o0);
    lemma_div8_shift(sv.len() as int + 7, o1);
}

/// Law: for a fixed image, the serialized payload size is
/// non-increasing as the cutoffs rise.
pub proof fn lemma_payload_size_monotone(comp: ImgCompressor, c1: Cutoff, c2: Cutoff)
    requires
        c1.0 <= c2.0,
        c1.1 <= c2.1,
        c1.2 <= c2.2,
    ensures
        payload_len(comp, c2) <= payload_len(comp, c1),
{
    lemma_cutoff_monotone(*comp.lumin_root, c1.0, c2.0);
    lemma_cutoff_monotone(*comp.c_blu_root, c1.1, c2.1);
    lemma_cutoff_monotone(*comp.c_red_root, c1.2, c2.2);
    lemma_div_is_ordered(
        struct_bits(*comp.lumin_root, c2.0).len() as int + 7,
        struct_bits(*comp.lumin_root, c1.0).len() as int + 7,
        8,
    );
    lemma_div_is_ordered(
        struct_bits(*comp.c_blu_root, c2.1).len() as int + 7,
        struct_bits(*comp.c_blu_root, c1.1).len() as int + 7,
        8,
    );
    lemma_div_is_ordered(
        struct_bits(*comp.c_red_root, c2.2).len() as int + 7,
        struct_bits(*comp.c_red_root, c1.2).len() as int + 7,
        8,
    );
}

} // verus!
