//! The tree serializer: a cutoff-driven pre-order walk emits a
//! bit-packed structure stream and a parallel leaf-data byte stream,
//! and the inverse walk reconstructs a bitmap from the two streams.
//!
//! Wire convention: the structure stream holds one bit per visited
//! node. A leaf and a collapsed branch both emit `false`; an expanded
//! branch emits `true` and then its four quadrants in order. The two
//! cases of a `false` bit are told apart by region size, which the
//! decoder tracks while descending from the known `rank`: at size 2 a
//! `false` bit is a literal leaf and consumes four data bytes, at any
//! larger size it is a collapsed branch and consumes one (its average).

use vstd::prelude::*;

use bitvec::order::Lsb0;
use bitvec::vec::BitVec;

use crate::quadtree::{is_pow2, node_size, shape_ok, Quadtree};
use crate::CodecError;

verus! {

/// A growable bit stream: bitvec's `BitVec<u8, Lsb0>`, held opaquely
/// because the verifier cannot see that type's own generics. Its
/// contents are visible only through `bits_of`.
#[verifier::external_body]
pub struct BitStream {
    inner: BitVec<u8, Lsb0>,
}

/// The sequence of live bits a bit stream holds, in push order.
pub uninterp spec fn bits_of(v: BitStream) -> Seq<bool>;

/// Bit `i` of a byte-packed bit stream: bit `i % 8`, counted from the
/// least significant end, of byte `i / 8`.
pub open spec fn bit_at(bytes: Seq<u8>, i: int) -> bool {
    (bytes[i / 8] >> ((i % 8) as u8)) & 1 == 1
}

/// Relies on bitvec::vec::BitVec::with_capacity: it returns an empty
/// bit-vector, and panics only when the requested capacity exceeds the
/// greatest representable bit length, `usize::MAX / 8`.
#[verifier::external_body]
pub(crate) fn bv_with_capacity(capacity: usize) -> (r: BitStream)
    requires
        capacity <= usize::MAX / 8,
    ensures
        bits_of(r) == Seq::<bool>::empty(),
{
    BitStream { inner: BitVec::with_capacity(capacity) }
}

/// Relies on bitvec::vec::BitVec::push: it appends one bit after the
/// live bits, and panics only when the new length would exceed the
/// greatest representable bit length, `usize::MAX / 8`.
#[verifier::external_body]
pub(crate) fn bv_push(v: &mut BitStream, bit: bool)
    requires
        bits_of(*old(v)).len() < usize::MAX / 8,
    ensures
        bits_of(*final(v)) == bits_of(*old(v)).push(bit),
{
    v.inner.push(bit)
}

/// Relies on bitvec::vec::BitVec::into_vec: it hands back the
/// underlying storage, one byte for every eight bits begun, with bit
/// `i` of the vector stored at bit `i % 8` of byte `i / 8` (the `Lsb0`
/// ordering); the pad bits of a final partial byte are unspecified.
#[verifier::external_body]
pub(crate) fn bv_into_vec(v: BitStream) -> (r: Vec<u8>)
    ensures
        r@.len() == (bits_of(v).len() + 7) / 8,
        forall|i: int| 0 <= i < bits_of(v).len() ==> bits_of(v)[i] == bit_at(r@, i),
{
    v.inner.into_vec()
}

/// The structure stream of a tree at a cutoff: one `false` for a leaf
/// or a branch whose contrast falls below the cutoff (a collapsed
/// branch), and a `true` followed by the four quadrant streams for an
/// expanded branch.
pub open spec fn struct_bits(t: Quadtree, cutoff: u8) -> Seq<bool>
    decreases t,
{
    match t {
        Quadtree::Leaf(..) => seq![false],
        Quadtree::Branch(a, b, c, d, _q, m) => {
            if (m.high as int - m.low as int) < cutoff as int {
                seq![false]
            } else {
                seq![true] + struct_bits(*a, cutoff) + struct_bits(*b, cutoff)
                    + struct_bits(*c, cutoff) + struct_bits(*d, cutoff)
            }
        },
    }
}

/// The leaf-data stream of a tree at a cutoff, walked in lockstep with
/// the structure stream: a leaf emits its four raw samples, a collapsed
/// branch emits the one byte of its average, and an expanded branch
/// emits the four quadrant streams.
pub open spec fn leaf_bytes(t: Quadtree, cutoff: u8) -> Seq<u8>
    decreases t,
{
    match t {
        Quadtree::Leaf(a, b, c, d) => seq![a, b, c, d],
        Quadtree::Branch(a, b, c, d, _q, m) => {
            if (m.high as int - m.low as int) < cutoff as int {
                seq![m.average]
            } else {
                leaf_bytes(*a, cutoff) + leaf_bytes(*b, cutoff) + leaf_bytes(*c, cutoff)
                    + leaf_bytes(*d, cutoff)
            }
        },
    }
}

/// Both streams of a node are non-empty.
pub proof fn lemma_stream_lens(t: Quadtree, cutoff: u8)
    ensures
        1 <= struct_bits(t, cutoff).len(),
        1 <= leaf_bytes(t, cutoff).len(),
    decreases t,
{
    match t {
        Quadtree::Leaf(..) => {},
        Quadtree::Branch(a, _b, _c, _d, _q, _m) => {
            lemma_stream_lens(*a, cutoff);
        },
    }
}

/// A node of side `size` emits at most `(size * size - 1) / 3`
/// structure bits, whatever the cutoff: the deepest walk visits every
/// node of the full four-way tree.
pub proof fn lemma_struct_bits_len(t: Quadtree, cutoff: u8)
    requires
        shape_ok(t),
    ensures
        3 * struct_bits(t, cutoff).len() <= node_size(t) * node_size(t) - 1,
    decreases t,
{
    match t {
        Quadtree::Leaf(..) => {},
        Quadtree::Branch(a, b, c, d, _q, m) => {
            let size = m.size as int;
            let s = size / 2;
            assert(16 <= size * size) by (nonlinear_arith)
                requires
                    size >= 4,
            ;
            if (m.high as int - m.low as int) < cutoff as int {
            } else {
                lemma_struct_bits_len(*a, cutoff);
                lemma_struct_bits_len(*b, cutoff);
                lemma_struct_bits_len(*c, cutoff);
                lemma_struct_bits_len(*d, cutoff);
                assert(4 * (s * s) == size * size) by (nonlinear_arith)
                    requires
                        2 * s == size,
                ;
            }
        },
    }
}

/// Law: raising the cutoff never lengthens either stream. Every region
/// collapsed at the lower cutoff is still collapsed at the higher one,
/// so the serialized payload size is non-increasing in the cutoff.
pub proof fn lemma_cutoff_monotone(t: Quadtree, c1: u8, c2: u8)
    requires
        c1 <= c2,
    ensures
        struct_bits(t, c2).len() <= struct_bits(t, c1).len(),
        leaf_bytes(t, c2).len() <= leaf_bytes(t, c1).len(),
    decreases t,
{
    match t {
        Quadtree::Leaf(..) => {},
        Quadtree::Branch(a, b, c, d, _q, m) => {
            let contrast = m.high as int - m.low as int;
            if contrast < c1 as int {
                // collapsed under both cutoffs: the streams are equal
            } else if contrast < c2 as int {
                // collapsed only under the higher cutoff
                lemma_stream_lens(*a, c1);
                lemma_stream_lens(*b, c1);
                lemma_stream_lens(*c, c1);
                lemma_stream_lens(*d, c1);
            } else {
                lemma_cutoff_monotone(*a, c1, c2);
                lemma_cutoff_monotone(*b, c1, c2);
                lemma_cutoff_monotone(*c, c1, c2);
                lemma_cutoff_monotone(*d, c1, c2);
            }
        },
    }
}

/// Appends the structure stream of `quadtree` at `cutoff` to the
/// bit-vector, in pre-order.
pub fn build_leaf_index(quadtree: &Quadtree, quad_index: &mut BitStream, cutoff: u8)
    requires
        shape_ok(*quadtree),
        bits_of(*old(quad_index)).len() + struct_bits(*quadtree, cutoff).len() <= usize::MAX / 8,
    ensures
        bits_of(*final(quad_index)) =~= bits_of(*old(quad_index)) + struct_bits(
            *quadtree,
            cutoff,
        ),
    decreases *quadtree,
{
    proof {
        lemma_stream_lens(*quadtree, cutoff);
    }
    match quadtree {
        Quadtree::Leaf(..) => {
            bv_push(quad_index, false);
        },
        Quadtree::Branch(a, b, c, d, _quad, meta) => {
            let contrast = meta.high - meta.low;
            if contrast < cutoff {
                bv_push(quad_index, false);
            } else {
                bv_push(quad_index, true);
                build_leaf_index(a, quad_index, cutoff);
                build_leaf_index(b, quad_index, cutoff);
                build_leaf_index(c, quad_index, cutoff);
                build_leaf_index(d, quad_index, cutoff);
            }
        },
    }
}

/// Appends the leaf-data stream of `quadtree` at `cutoff` to the byte
/// vector, in the same pre-order as the structure stream.
pub fn build_leaf_data(quadtree: &Quadtree, leaf_data: &mut Vec<u8>, cutoff: u8)
    requires
        shape_ok(*quadtree),
    ensures
        final(leaf_data)@ =~= old(leaf_data)@ + leaf_bytes(*quadtree, cutoff),
    decreases *quadtree,
{
    match quadtree {
        Quadtree::Leaf(a, b, c, d) => {
            leaf_data.push(*a);
            leaf_data.push(*b);
            leaf_data.push(*c);
            leaf_data.push(*d);
        },
        Quadtree::Branch(a, b, c, d, _quad, meta) => {
            let contrast = meta.high - meta.low;
            if contrast < cutoff {
                leaf_data.push(meta.average);
            } else {
                build_leaf_data(a, leaf_data, cutoff);
                build_leaf_data(b, leaf_data, cutoff);
                build_leaf_data(c, leaf_data, cutoff);
                build_leaf_data(d, leaf_data, cutoff);
            }
        },
    }
}

/// Serializes one tree at a cutoff into its two parallel streams: the
/// byte-packed structure stream (pad bits of a final partial byte
/// unconstrained) and the leaf-data stream.
pub fn encode_channel(quadtree: &Quadtree, cutoff: u8) -> (r: (Vec<u8>, Vec<u8>))
    requires
        shape_ok(*quadtree),
        node_size(*quadtree) * node_size(*quadtree) <= usize::MAX / 8,
    ensures
        ({
            let sb = struct_bits(*quadtree, cutoff);
            let lb = leaf_bytes(*quadtree, cutoff);
            &&& r.0@.len() == (sb.len() + 7) / 8
            &&& forall|i: int| 0 <= i < sb.len() ==> sb[i] == bit_at(r.0@, i)
            &&& r.1@ == lb
        }),
{
    proof {
        lemma_struct_bits_len(*quadtree, cutoff);
    }
    let mut quad_index = bv_with_capacity(0);
    build_leaf_index(quadtree, &mut quad_index, cutoff);
    let mut data: Vec<u8> = Vec::new();
    build_leaf_data(quadtree, &mut data, cutoff);
    proof {
        assert(bits_of(quad_index) =~= struct_bits(*quadtree, cutoff));
        assert(data@ =~= leaf_bytes(*quadtree, cutoff));
    }
    (bv_into_vec(quad_index), data)
}

/// A region reconstructed from the two streams: a literal 2x2 leaf, a
/// region collapsed to one representative byte, or a split into four
/// quadrants in the fixed order.
pub enum Decoded {
    Leaf(u8, u8, u8, u8),
    Flat(u8),
    Split(Box<Decoded>, Box<Decoded>, Box<Decoded>, Box<Decoded>),
}

/// The bits of a packed stream, as a sequence: bit `i` is bit `i % 8`
/// of byte `i / 8`.
pub open spec fn unpacked(bytes: Seq<u8>, n: int) -> Seq<bool> {
    Seq::new(n as nat, |i: int| bit_at(bytes, i))
}

/// Where the cursors stand after decoding one region of side `size`
/// from bit position `bp` and byte position `dp`: `None` when the
/// streams end prematurely or a leaf-sized region carries a set bit.
pub open spec fn spec_decode(bits: Seq<bool>, bp: int, data: Seq<u8>, dp: int, size: int) -> Option<
    (int, int),
>
    decreases size,
{
    if !(0 <= bp < bits.len() && 0 <= dp) {
        None
    } else if size <= 2 {
        if !bits[bp] && dp + 4 <= data.len() {
            Some((bp + 1, dp + 4))
        } else {
            None
        }
    } else if !bits[bp] {
        if dp + 1 <= data.len() {
            Some((bp + 1, dp + 1))
        } else {
            None
        }
    } else {
        let s = size / 2;
        match spec_decode(bits, bp + 1, data, dp, s) {
            Some((bp1, dp1)) => match spec_decode(bits, bp1, data, dp1, s) {
                Some((bp2, dp2)) => match spec_decode(bits, bp2, data, dp2, s) {
                    Some((bp3, dp3)) => spec_decode(bits, bp3, data, dp3, s),
                    None => None,
                },
                None => None,
            },
            None => None,
        }
    }
}

/// The value that decoding one region of side `size` from bit position
/// `bp` and byte position `dp` yields: at size 2 a cleared bit is a
/// literal leaf of the next four data bytes; at a larger size a cleared
/// bit is a collapsed region of the next single data byte, and a set
/// bit is a split whose quadrants decode in order.
pub open spec fn stream_decodes(
    bits: Seq<bool>,
    bp: int,
    data: Seq<u8>,
    dp: int,
    size: int,
    d: Decoded,
) -> bool
    decreases size,
{
    if !(0 <= bp < bits.len() && 0 <= dp) {
        false
    } else if size <= 2 {
        &&& !bits[bp]
        &&& dp + 4 <= data.len()
        &&& d == Decoded::Leaf(data[dp], data[dp + 1], data[dp + 2], data[dp + 3])
    } else if !bits[bp] {
        &&& dp + 1 <= data.len()
        &&& d == Decoded::Flat(data[dp])
    } else {
        let s = size / 2;
        match d {
            Decoded::Split(da, db, dc, dd) => match spec_decode(bits, bp + 1, data, dp, s) {
                Some((bp1, dp1)) => match spec_decode(bits, bp1, data, dp1, s) {
                    Some((bp2, dp2)) => match spec_decode(bits, bp2, data, dp2, s) {
                        Some((bp3, dp3)) => {
                            &&& stream_decodes(bits, bp + 1, data, dp, s, *da)
                            &&& stream_decodes(bits, bp1, data, dp1, s, *db)
                            &&& stream_decodes(bits, bp2, data, dp2, s, *dc)
                            &&& stream_decodes(bits, bp3, data, dp3, s, *dd)
                        },
                        None => false,
                    },
                    None => false,
                },
                None => false,
            },
            _ => false,
        }
    }
}

/// How a tree looks after collapsing at a cutoff: leaves stay literal,
/// a branch whose contrast falls below the cutoff becomes a flat region
/// holding its average, and any other branch becomes a split.
pub open spec fn collapsed_form(d: Decoded, t: Quadtree, cutoff: u8) -> bool
    decreases t,
{
    match t {
        Quadtree::Leaf(a, b, c, dd) => d == Decoded::Leaf(a, b, c, dd),
        Quadtree::Branch(a, b, c, dd, _q, m) => {
            if (m.high as int - m.low as int) < cutoff as int {
                d == Decoded::Flat(m.average)
            } else {
                match d {
                    Decoded::Split(da, db, dc, ddd) => {
                        &&& collapsed_form(*da, *a, cutoff)
                        &&& collapsed_form(*db, *b, cutoff)
                        &&& collapsed_form(*dc, *c, cutoff)
                        &&& collapsed_form(*ddd, *dd, cutoff)
                    },
                    _ => false,
                }
            }
        },
    }
}

/// Whether a decoded region fits a region of side `size`: literal
/// leaves only at size 2, splits only where the side halves evenly.
pub open spec fn decoded_fits(d: Decoded, size: int) -> bool
    decreases d,
{
    match d {
        Decoded::Leaf(..) => size == 2,
        Decoded::Flat(_) => size >= 2,
        Decoded::Split(da, db, dc, dd) => {
            let s = size / 2;
            &&& size >= 4
            &&& size % 2 == 0
            &&& decoded_fits(*da, s)
            &&& decoded_fits(*db, s)
            &&& decoded_fits(*dc, s)
            &&& decoded_fits(*dd, s)
        },
    }
}

/// The value a decoded region holds at offset `(dx, dy)` inside it.
pub open spec fn decoded_pixel(d: Decoded, dx: int, dy: int, size: int) -> u8
    decreases d,
{
    match d {
        Decoded::Leaf(a, b, c, dd) => {
            if dx == 0 {
                if dy == 0 { a } else { c }
            } else {
                if dy == 0 { b } else { dd }
            }
        },
        Decoded::Flat(v) => v,
        Decoded::Split(da, db, dc, dd) => {
            let s = size / 2;
            if dx < s {
                if dy < s {
                    decoded_pixel(*da, dx, dy, s)
                } else {
                    decoded_pixel(*dc, dx, dy - s, s)
                }
            } else {
                if dy < s {
                    decoded_pixel(*db, dx - s, dy, s)
                } else {
                    decoded_pixel(*dd, dx - s, dy - s, s)
                }
            }
        },
    }
}

/// Decoding never moves a cursor backwards nor past the end of its
/// stream.
pub proof fn lemma_decode_bounds(bits: Seq<bool>, bp: int, data: Seq<u8>, dp: int, size: int)
    ensures
        match spec_decode(bits, bp, data, dp, size) {
            Some(pos) => bp < pos.0 <= bits.len() && dp <= pos.1 <= data.len(),
            None => true,
        },
    decreases size,
{
    if 0 <= bp < bits.len() && 0 <= dp && size > 2 && bits[bp] {
        let s = size / 2;
        lemma_decode_bounds(bits, bp + 1, data, dp, s);
        match spec_decode(bits, bp + 1, data, dp, s) {
            Some((bp1, dp1)) => {
                lemma_decode_bounds(bits, bp1, data, dp1, s);
                match spec_decode(bits, bp1, data, dp1, s) {
                    Some((bp2, dp2)) => {
                        lemma_decode_bounds(bits, bp2, data, dp2, s);
                        match spec_decode(bits, bp2, data, dp2, s) {
                            Some((bp3, dp3)) => {
                                lemma_decode_bounds(bits, bp3, data, dp3, s);
                            },
                            None => {},
                        }
                    },
                    None => {},
                }
            },
            None => {},
        }
    }
}

/// Shifting a packed stream by whole bytes shifts its bit cursors by
/// eight per byte.
pub proof fn lemma_div8_shift(x: int, c: int)
    requires
        0 <= x,
        0 <= c,
    ensures
        (8 * c + x) / 8 == c + x / 8,
{
    vstd::arithmetic::div_mod::lemma_fundamental_div_mod(x, 8);
    vstd::arithmetic::div_mod::lemma_mod_bound(x, 8);
    vstd::arithmetic::div_mod::lemma_fundamental_div_mod_converse_div(
        8 * c + x,
        8,
        c + x / 8,
        x % 8,
    );
}

/// A bit of a byte-aligned slice of a packed stream is the
/// corresponding bit of the whole stream.
pub proof fn lemma_bit_at_slice(bytes: Seq<u8>, a: int, b: int, k: int)
    requires
        0 <= a <= b <= bytes.len(),
        0 <= k < 8 * (b - a),
    ensures
        bit_at(bytes.subrange(a, b), k) == bit_at(bytes, 8 * a + k),
{
    vstd::arithmetic::div_mod::lemma_fundamental_div_mod(k, 8);
    vstd::arithmetic::div_mod::lemma_mod_bound(k, 8);
    vstd::arithmetic::div_mod::lemma_fundamental_div_mod_converse_div(
        8 * a + k,
        8,
        a + k / 8,
        k % 8,
    );
    vstd::arithmetic::div_mod::lemma_fundamental_div_mod_converse_mod(
        8 * a + k,
        8,
        a + k / 8,
        k % 8,
    );
    assert(bytes.subrange(a, b)[k / 8] == bytes[a + k / 8]);
}

/// What a structure-only walk of one region of side `size` finds, from
/// bit position `bp`: the bit cursor after the region and the number of
/// leaf-data bytes the region calls for, or `None` where the structure
/// stream ends prematurely or a leaf-sized region carries a set bit.
pub open spec fn spec_measure(bits: Seq<bool>, bp: int, size: int) -> Option<(int, int)>
    decreases size,
{
    if !(0 <= bp < bits.len()) {
        None
    } else if size <= 2 {
        if !bits[bp] {
            Some((bp + 1, 4))
        } else {
            None
        }
    } else if !bits[bp] {
        Some((bp + 1, 1))
    } else {
        let s = size / 2;
        match spec_measure(bits, bp + 1, s) {
            Some((bp1, d1)) => match spec_measure(bits, bp1, s) {
                Some((bp2, d2)) => match spec_measure(bits, bp2, s) {
                    Some((bp3, d3)) => match spec_measure(bits, bp3, s) {
                        Some((bp4, d4)) => Some((bp4, d1 + d2 + d3 + d4)),
                        None => None,
                    },
                    None => None,
                },
                None => None,
            },
            None => None,
        }
    }
}

/// The structure walk moves its cursor forward, stays inside the
/// stream, and calls for at least one data byte.
pub proof fn lemma_measure_bounds(bits: Seq<bool>, bp: int, size: int)
    ensures
        match spec_measure(bits, bp, size) {
            Some(m) => bp < m.0 <= bits.len() && 1 <= m.1,
            None => true,
        },
    decreases size,
{
    if 0 <= bp < bits.len() && size > 2 && bits[bp] {
        let s = size / 2;
        lemma_measure_bounds(bits, bp + 1, s);
        match spec_measure(bits, bp + 1, s) {
            Some((bp1, _d1)) => {
                lemma_measure_bounds(bits, bp1, s);
                match spec_measure(bits, bp1, s) {
                    Some((bp2, _d2)) => {
                        lemma_measure_bounds(bits, bp2, s);
                        match spec_measure(bits, bp2, s) {
                            Some((bp3, _d3)) => {
                                lemma_measure_bounds(bits, bp3, s);
                            },
                            None => {},
                        }
                    },
                    None => {},
                }
            },
            None => {},
        }
    }
}

/// A region of side `size` never calls for more than `size * size`
/// data bytes.
pub proof fn lemma_measure_data_cap(bits: Seq<bool>, bp: int, size: int)
    requires
        is_pow2(size),
        size >= 2,
    ensures
        match spec_measure(bits, bp, size) {
            Some(m) => m.1 <= size * size,
            None => true,
        },
    decreases size,
{
    if 0 <= bp < bits.len() && size > 2 && bits[bp] {
        let s = size / 2;
        assert(4 <= size * size && 4 * (s * s) <= size * size) by (nonlinear_arith)
            requires
                2 <= 2 * s == size,
        ;
        lemma_measure_data_cap(bits, bp + 1, s);
        match spec_measure(bits, bp + 1, s) {
            Some((bp1, _d1)) => {
                lemma_measure_data_cap(bits, bp1, s);
                match spec_measure(bits, bp1, s) {
                    Some((bp2, _d2)) => {
                        lemma_measure_data_cap(bits, bp2, s);
                        match spec_measure(bits, bp2, s) {
                            Some((bp3, _d3)) => {
                                lemma_measure_data_cap(bits, bp3, s);
                            },
                            None => {},
                        }
                    },
                    None => {},
                }
            },
            None => {},
        }
    } else if 0 <= bp < bits.len() && size == 2 {
        assert(size * size == 4) by (nonlinear_arith)
            requires
                size == 2,
        ;
    } else if 0 <= bp < bits.len() && size > 2 {
        assert(size * size >= 1) by (nonlinear_arith)
            requires
                size >= 2,
        ;
    }
}

/// Decoding succeeds exactly where the structure walk succeeds and the
/// data stream holds the bytes it calls for, and the two agree on what
/// is consumed.
pub proof fn lemma_measure_decode(bits: Seq<bool>, bp: int, data: Seq<u8>, dp: int, size: int)
    requires
        0 <= dp,
    ensures
        match spec_measure(bits, bp, size) {
            Some(m) => spec_decode(bits, bp, data, dp, size) == (if dp + m.1 <= data.len() {
                Some((m.0, dp + m.1))
            } else {
                Option::<(int, int)>::None
            }),
            None => spec_decode(bits, bp, data, dp, size) is None,
        },
    decreases size,
{
    if 0 <= bp < bits.len() && size > 2 && bits[bp] {
        let s = size / 2;
        lemma_measure_decode(bits, bp + 1, data, dp, s);
        lemma_measure_bounds(bits, bp + 1, s);
        match spec_measure(bits, bp + 1, s) {
            Some((bp1, d1)) => {
                lemma_measure_decode(bits, bp1, data, dp + d1, s);
                lemma_measure_bounds(bits, bp1, s);
                match spec_measure(bits, bp1, s) {
                    Some((bp2, d2)) => {
                        lemma_measure_decode(bits, bp2, data, dp + d1 + d2, s);
                        lemma_measure_bounds(bits, bp2, s);
                        match spec_measure(bits, bp2, s) {
                            Some((bp3, d3)) => {
                                lemma_measure_decode(bits, bp3, data, dp + d1 + d2 + d3, s);
                                lemma_measure_bounds(bits, bp3, s);
                            },
                            None => {},
                        }
                    },
                    None => {},
                }
            },
            None => {},
        }
    }
}

/// The structure walk reads only the bits it consumes: it finds the
/// same thing in any stream that holds the same bits there.
pub proof fn lemma_measure_frame(bits1: Seq<bool>, bits2: Seq<bool>, base: int, bp: int, size: int)
    requires
        0 <= base,
        0 <= bp,
        forall|k: int| 0 <= k < bits2.len() ==> bits2[k] == bits1[base + k],
        spec_measure(bits1, base + bp, size) matches Some(m) && m.0 - base <= bits2.len(),
    ensures
        spec_measure(bits1, base + bp, size) matches Some(m) && spec_measure(bits2, bp, size)
            == Some((m.0 - base, m.1)),
    decreases size,
{
    lemma_measure_bounds(bits1, base + bp, size);
    if size <= 2 || !bits1[base + bp] {
    } else {
        let s = size / 2;
        match spec_measure(bits1, base + bp + 1, s) {
            Some((bp1, _d1)) => {
                lemma_measure_bounds(bits1, base + bp + 1, s);
                match spec_measure(bits1, bp1, s) {
                    Some((bp2, _d2)) => {
                        lemma_measure_bounds(bits1, bp1, s);
                        match spec_measure(bits1, bp2, s) {
                            Some((bp3, _d3)) => {
                                lemma_measure_bounds(bits1, bp2, s);
                                match spec_measure(bits1, bp3, s) {
                                    Some((_bp4, _d4)) => {
                                        lemma_measure_bounds(bits1, bp3, s);
                                        lemma_measure_frame(bits1, bits2, base, bp + 1, s);
                                        lemma_measure_frame(bits1, bits2, base, bp1 - base, s);
                                        lemma_measure_frame(bits1, bits2, base, bp2 - base, s);
                                        lemma_measure_frame(bits1, bits2, base, bp3 - base, s);
                                    },
                                    None => {},
                                }
                            },
                            None => {},
                        }
                    },
                    None => {},
                }
            },
            None => {},
        }
    }
}

/// The structure walk in a slice embeds into any longer stream that
/// holds the same bits there: measuring at the shifted position finds
/// the same run.
pub proof fn lemma_measure_embed(bits1: Seq<bool>, bits2: Seq<bool>, base: int, bp: int, size: int)
    requires
        0 <= base,
        0 <= bp,
        base + bits2.len() <= bits1.len(),
        forall|k: int| 0 <= k < bits2.len() ==> bits2[k] == bits1[base + k],
        spec_measure(bits2, bp, size) is Some,
    ensures
        spec_measure(bits2, bp, size) matches Some(m) && spec_measure(bits1, base + bp, size)
            == Some((base + m.0, m.1)),
    decreases size,
{
    lemma_measure_bounds(bits2, bp, size);
    if size <= 2 || !bits2[bp] {
    } else {
        let s = size / 2;
        match spec_measure(bits2, bp + 1, s) {
            Some((bp1, _d1)) => {
                lemma_measure_bounds(bits2, bp + 1, s);
                match spec_measure(bits2, bp1, s) {
                    Some((bp2, _d2)) => {
                        lemma_measure_bounds(bits2, bp1, s);
                        match spec_measure(bits2, bp2, s) {
                            Some((bp3, _d3)) => {
                                lemma_measure_bounds(bits2, bp2, s);
                                match spec_measure(bits2, bp3, s) {
                                    Some((_bp4, _d4)) => {
                                        lemma_measure_bounds(bits2, bp3, s);
                                        lemma_measure_embed(bits1, bits2, base, bp + 1, s);
                                        lemma_measure_embed(bits1, bits2, base, bp1, s);
                                        lemma_measure_embed(bits1, bits2, base, bp2, s);
                                        lemma_measure_embed(bits1, bits2, base, bp3, s);
                                    },
                                    None => {},
                                }
                            },
                            None => {},
                        }
                    },
                    None => {},
                }
            },
            None => {},
        }
    }
}

/// Where decoding succeeds, the structure-only walk succeeds too, and
/// the two agree on what is consumed.
pub proof fn lemma_decode_to_measure(bits: Seq<bool>, bp: int, data: Seq<u8>, dp: int, size: int)
    requires
        0 <= dp,
        spec_decode(bits, bp, data, dp, size) is Some,
    ensures
        spec_decode(bits, bp, data, dp, size) matches Some(c) && spec_measure(bits, bp, size)
            == Some((c.0, c.1 - dp)),
{
    lemma_measure_decode(bits, bp, data, dp, size);
}

/// Walks one region's structure run without touching leaf data: yields
/// the bit cursor after the region and the number of data bytes the
/// region calls for.
pub fn measure_structure(structure: &Vec<u8>, bp: usize, size: usize) -> (r: Result<
    (usize, usize),
    CodecError,
>)
    requires
        structure@.len() <= usize::MAX / 8,
        is_pow2(size as int),
        size >= 2,
        (size as int) * (size as int) <= usize::MAX,
    ensures
        ({
            let bits = unpacked(structure@, 8 * structure@.len() as int);
            match r {
                Ok((bp2, d)) => spec_measure(bits, bp as int, size as int) == Some(
                    (bp2 as int, d as int),
                ),
                Err(e) => {
                    &&& e == CodecError::FormatError
                    &&& spec_measure(bits, bp as int, size as int) is None
                },
            }
        }),
    decreases size,
{
    let ghost bits = unpacked(structure@, 8 * structure@.len() as int);
    if bp / 8 >= structure.len() {
        proof {
            assert(bp >= bits.len()) by (nonlinear_arith)
                requires
                    bp / 8 >= structure@.len(),
                    bits.len() == 8 * structure@.len(),
                    bp >= 0,
            ;
        }
        return Err(CodecError::FormatError);
    }
    proof {
        assert(bp < bits.len()) by (nonlinear_arith)
            requires
                bp / 8 < structure@.len(),
                bits.len() == 8 * structure@.len(),
                bp >= 0,
        ;
        assert(bits[bp as int] == bit_at(structure@, bp as int));
    }
    let bit = read_bit(structure, bp);
    if size == 2 {
        if bit {
            return Err(CodecError::FormatError);
        }
        return Ok((bp + 1, 4));
    }
    if !bit {
        return Ok((bp + 1, 1));
    }
    let s = size / 2;
    proof {
        assert(4 * ((s as int) * (s as int)) == (size as int) * (size as int)) by (
        nonlinear_arith)
            requires
                2 * (s as int) == size as int,
        ;
        lemma_measure_bounds(bits, bp as int + 1, s as int);
        lemma_measure_data_cap(bits, bp as int + 1, s as int);
    }
    let (bp1, d1) = match measure_structure(structure, bp + 1, s) {
        Ok(v) => v,
        Err(e) => {
            return Err(e);
        },
    };
    proof {
        lemma_measure_bounds(bits, bp1 as int, s as int);
        lemma_measure_data_cap(bits, bp1 as int, s as int);
    }
    let (bp2, d2) = match measure_structure(structure, bp1, s) {
        Ok(v) => v,
        Err(e) => {
            return Err(e);
        },
    };
    proof {
        lemma_measure_bounds(bits, bp2 as int, s as int);
        lemma_measure_data_cap(bits, bp2 as int, s as int);
    }
    let (bp3, d3) = match measure_structure(structure, bp2, s) {
        Ok(v) => v,
        Err(e) => {
            return Err(e);
        },
    };
    proof {
        lemma_measure_bounds(bits, bp3 as int, s as int);
        lemma_measure_data_cap(bits, bp3 as int, s as int);
    }
    let (bp4, d4) = match measure_structure(structure, bp3, s) {
        Ok(v) => v,
        Err(e) => {
            return Err(e);
        },
    };
    Ok((bp4, d1 + d2 + d3 + d4))
}

/// A slice of a stream that sits inside a larger slice of the stream
/// is itself a contiguous run of the stream.
proof fn lemma_sub_chunk<A>(s: Seq<A>, base: int, whole: Seq<A>, off: int, part: Seq<A>)
    requires
        0 <= base,
        0 <= off,
        off + part.len() <= whole.len(),
        base + whole.len() <= s.len(),
        s.subrange(base, base + whole.len() as int) == whole,
        forall|k: int| 0 <= k < part.len() ==> whole[off + k] == part[k],
    ensures
        s.subrange(base + off, base + off + part.len() as int) == part,
{
    assert forall|k: int|
        0 <= k < part.len() implies s.subrange(base + off, base + off + part.len() as int)[k]
        == part[k] by {
        assert(s.subrange(base, base + whole.len() as int)[off + k] == whole[off + k]);
    }
    assert(s.subrange(base + off, base + off + part.len() as int) =~= part);
}

/// Law: the structure stream and the leaf-data stream stay in lockstep.
/// Wherever the two streams hold a node's encoding, decoding from there
/// succeeds and consumes exactly the bits and bytes the encoder
/// produced — no leftover and no underrun — and the regions it yields
/// are exactly the collapsed form of the encoded tree.
pub proof fn lemma_lockstep(
    t: Quadtree,
    cutoff: u8,
    bits: Seq<bool>,
    bp: int,
    data: Seq<u8>,
    dp: int,
)
    requires
        shape_ok(t),
        0 <= bp,
        0 <= dp,
        bp + struct_bits(t, cutoff).len() <= bits.len(),
        bits.subrange(bp, bp + struct_bits(t, cutoff).len() as int) == struct_bits(t, cutoff),
        dp + leaf_bytes(t, cutoff).len() <= data.len(),
        data.subrange(dp, dp + leaf_bytes(t, cutoff).len() as int) == leaf_bytes(t, cutoff),
    ensures
        spec_decode(bits, bp, data, dp, node_size(t)) == Some(
            (bp + struct_bits(t, cutoff).len() as int, dp + leaf_bytes(t, cutoff).len() as int),
        ),
        forall|d: Decoded|
            stream_decodes(bits, bp, data, dp, node_size(t), d) <==> collapsed_form(d, t, cutoff),
    decreases t,
{
    let sb = struct_bits(t, cutoff);
    let lb = leaf_bytes(t, cutoff);
    assert forall|k: int| 0 <= k < sb.len() implies bits[bp + k] == sb[k] by {
        assert(bits.subrange(bp, bp + sb.len() as int)[k] == sb[k]);
    }
    assert forall|k: int| 0 <= k < lb.len() implies data[dp + k] == lb[k] by {
        assert(data.subrange(dp, dp + lb.len() as int)[k] == lb[k]);
    }
    match t {
        Quadtree::Leaf(a, b, c, dd) => {
            assert(bits[bp] == sb[0]);
            assert(data[dp] == a && data[dp + 1] == b && data[dp + 2] == c && data[dp + 3] == dd);
        },
        Quadtree::Branch(ta, tb, tc, td, _q, m) => {
            let size = m.size as int;
            if (m.high as int - m.low as int) < cutoff as int {
                assert(bits[bp] == sb[0]);
                assert(data[dp + 0] == lb[0]);
                assert(data[dp] == m.average);
            } else {
                let sa = struct_bits(*ta, cutoff);
                let sbb = struct_bits(*tb, cutoff);
                let sc = struct_bits(*tc, cutoff);
                let sd = struct_bits(*td, cutoff);
                let la = leaf_bytes(*ta, cutoff);
                let lbb = leaf_bytes(*tb, cutoff);
                let lc = leaf_bytes(*tc, cutoff);
                let ld = leaf_bytes(*td, cutoff);
                let s = size / 2;
                assert(bits[bp] == sb[0]);
                assert(bits[bp]);
                let n0 = bp + 1;
                let n1 = n0 + sa.len() as int;
                let n2 = n1 + sbb.len() as int;
                let n3 = n2 + sc.len() as int;
                let n4 = n3 + sd.len() as int;
                let m0 = dp;
                let m1 = m0 + la.len() as int;
                let m2 = m1 + lbb.len() as int;
                let m3 = m2 + lc.len() as int;
                let m4 = m3 + ld.len() as int;
                lemma_sub_chunk(bits, bp, sb, 1, sa);
                lemma_sub_chunk(bits, bp, sb, 1 + sa.len() as int, sbb);
                lemma_sub_chunk(bits, bp, sb, 1 + sa.len() as int + sbb.len() as int, sc);
                lemma_sub_chunk(bits, bp, sb, 1 + sa.len() as int + sbb.len() as int + sc.len() as int, sd);
                lemma_sub_chunk(data, dp, lb, 0, la);
                lemma_sub_chunk(data, dp, lb, la.len() as int, lbb);
                lemma_sub_chunk(data, dp, lb, la.len() as int + lbb.len() as int, lc);
                lemma_sub_chunk(data, dp, lb, la.len() as int + lbb.len() as int + lc.len() as int, ld);
                lemma_lockstep(*ta, cutoff, bits, n0, data, m0);
                lemma_lockstep(*tb, cutoff, bits, n1, data, m1);
                lemma_lockstep(*tc, cutoff, bits, n2, data, m2);
                lemma_lockstep(*td, cutoff, bits, n3, data, m3);
                assert(node_size(*ta) == s && node_size(*tb) == s && node_size(*tc) == s
                    && node_size(*td) == s);
                assert(spec_decode(bits, n0, data, m0, s) == Some((n1, m1)));
                assert(spec_decode(bits, n1, data, m1, s) == Some((n2, m2)));
                assert(spec_decode(bits, n2, data, m2, s) == Some((n3, m3)));
                assert(spec_decode(bits, n3, data, m3, s) == Some((n4, m4)));
                assert(spec_decode(bits, bp, data, dp, size) == Some((n4, m4)));
                assert(n4 == bp + sb.len() as int && m4 == dp + lb.len() as int);
                assert forall|d: Decoded|
                    stream_decodes(bits, bp, data, dp, node_size(t), d)
                        <==> collapsed_form(d, t, cutoff) by {
                    assert(node_size(t) == size);
                    match d {
                        Decoded::Split(da, db, dc, ddd) => {
                            assert(stream_decodes(bits, n0, data, m0, node_size(*ta), *da)
                                <==> collapsed_form(*da, *ta, cutoff));
                            assert(stream_decodes(bits, n1, data, m1, node_size(*tb), *db)
                                <==> collapsed_form(*db, *tb, cutoff));
                            assert(stream_decodes(bits, n2, data, m2, node_size(*tc), *dc)
                                <==> collapsed_form(*dc, *tc, cutoff));
                            assert(stream_decodes(bits, n3, data, m3, node_size(*td), *ddd)
                                <==> collapsed_form(*ddd, *td, cutoff));
                            assert(stream_decodes(bits, bp, data, dp, size, d) == (
                            stream_decodes(bits, n0, data, m0, s, *da) && stream_decodes(
                                bits,
                                n1,
                                data,
                                m1,
                                s,
                                *db,
                            ) && stream_decodes(bits, n2, data, m2, s, *dc) && stream_decodes(
                                bits,
                                n3,
                                data,
                                m3,
                                s,
                                *ddd,
                            )));
                            assert(collapsed_form(d, t, cutoff) == (collapsed_form(*da, *ta, cutoff)
                                && collapsed_form(*db, *tb, cutoff) && collapsed_form(
                                *dc,
                                *tc,
                                cutoff,
                            ) && collapsed_form(*ddd, *td, cutoff)));
                        },
                        _ => {
                            assert(!stream_decodes(bits, bp, data, dp, size, d));
                            assert(!collapsed_form(d, t, cutoff));
                        },
                    }
                }
            }
        },
    }
}

/// Law: decoding the two streams a tree serializes to at a cutoff
/// consumes exactly the number of bits and bytes the encoder produced,
/// with no leftover and no underrun, and yields the tree's collapsed
/// form.
pub proof fn lemma_lockstep_root(t: Quadtree, cutoff: u8)
    requires
        shape_ok(t),
    ensures
        spec_decode(struct_bits(t, cutoff), 0, leaf_bytes(t, cutoff), 0, node_size(t)) == Some(
            (struct_bits(t, cutoff).len() as int, leaf_bytes(t, cutoff).len() as int),
        ),
        forall|d: Decoded|
            stream_decodes(struct_bits(t, cutoff), 0, leaf_bytes(t, cutoff), 0, node_size(t), d)
                <==> collapsed_form(d, t, cutoff),
{
    let sb = struct_bits(t, cutoff);
    let lb = leaf_bytes(t, cutoff);
    assert(sb.subrange(0, sb.len() as int) =~= sb);
    assert(lb.subrange(0, lb.len() as int) =~= lb);
    lemma_lockstep(t, cutoff, sb, 0, lb, 0);
}

/// Reads bit `bp` of a packed stream.
fn read_bit(structure: &Vec<u8>, bp: usize) -> (b: bool)
    requires
        bp / 8 < structure@.len(),
    ensures
        b == bit_at(structure@, bp as int),
{
    (structure[bp / 8] >> ((bp % 8) as u8)) & 1 == 1
}

/// Decodes the region of side `size` that starts at bit `bp` of the
/// packed structure stream and byte `dp` of the leaf-data stream,
/// returning the decoded region and the cursors after it, or
/// `FormatError` where either stream ends prematurely or a leaf-sized
/// region carries a set structure bit.
pub fn decode_node(
    structure: &Vec<u8>,
    data: &Vec<u8>,
    bp: usize,
    dp: usize,
    size: usize,
) -> (r: Result<(Decoded, usize, usize), CodecError>)
    requires
        structure@.len() <= usize::MAX / 8,
        dp <= data@.len(),
        is_pow2(size as int),
        size >= 2,
    ensures
        ({
            let bits = unpacked(structure@, 8 * structure@.len() as int);
            match r {
                Ok((d, bp2, dp2)) => {
                    &&& spec_decode(bits, bp as int, data@, dp as int, size as int) == Some(
                        (bp2 as int, dp2 as int),
                    )
                    &&& stream_decodes(bits, bp as int, data@, dp as int, size as int, d)
                    &&& decoded_fits(d, size as int)
                },
                Err(e) => {
                    &&& e == CodecError::FormatError
                    &&& spec_decode(bits, bp as int, data@, dp as int, size as int) is None
                },
            }
        }),
    decreases size,
{
    let ghost bits = unpacked(structure@, 8 * structure@.len() as int);
    if bp / 8 >= structure.len() {
        proof {
            assert(bp >= bits.len()) by (nonlinear_arith)
                requires
                    bp / 8 >= structure@.len(),
                    bits.len() == 8 * structure@.len(),
                    bp >= 0,
            ;
        }
        return Err(CodecError::FormatError);
    }
    proof {
        assert(bp < bits.len()) by (nonlinear_arith)
            requires
                bp / 8 < structure@.len(),
                bits.len() == 8 * structure@.len(),
                bp >= 0,
        ;
        assert(bits[bp as int] == bit_at(structure@, bp as int));
    }
    let bit = read_bit(structure, bp);
    if size == 2 {
        if bit {
            return Err(CodecError::FormatError);
        }
        if data.len() - dp >= 4 {
            let d = Decoded::Leaf(data[dp], data[dp + 1], data[dp + 2], data[dp + 3]);
            Ok((d, bp + 1, dp + 4))
        } else {
            Err(CodecError::FormatError)
        }
    } else if !bit {
        if data.len() - dp >= 1 {
            Ok((Decoded::Flat(data[dp]), bp + 1, dp + 1))
        } else {
            Err(CodecError::FormatError)
        }
    } else {
        let s = size / 2;
        proof {
            lemma_decode_bounds(bits, bp + 1, data@, dp as int, s as int);
        }
        let (da, bp1, dp1) = match decode_node(structure, data, bp + 1, dp, s) {
            Ok(v) => v,
            Err(e) => {
                return Err(e);
            },
        };
        proof {
            lemma_decode_bounds(bits, bp1 as int, data@, dp1 as int, s as int);
        }
        let (db, bp2, dp2) = match decode_node(structure, data, bp1, dp1, s) {
            Ok(v) => v,
            Err(e) => {
                return Err(e);
            },
        };
        proof {
            lemma_decode_bounds(bits, bp2 as int, data@, dp2 as int, s as int);
        }
        let (dc, bp3, dp3) = match decode_node(structure, data, bp2, dp2, s) {
            Ok(v) => v,
            Err(e) => {
                return Err(e);
            },
        };
        proof {
            lemma_decode_bounds(bits, bp3 as int, data@, dp3 as int, s as int);
        }
        let (dd, bp4, dp4) = match decode_node(structure, data, bp3, dp3, s) {
            Ok(v) => v,
            Err(e) => {
                return Err(e);
            },
        };
        Ok((Decoded::Split(Box::new(da), Box::new(db), Box::new(dc), Box::new(dd)), bp4, dp4))
    }
}

/// The value a decoded region of side `size` holds at offset
/// `(dx, dy)`.
pub fn decoded_get(d: &Decoded, dx: usize, dy: usize, size: usize) -> (r: u8)
    requires
        decoded_fits(*d, size as int),
        dx < size,
        dy < size,
    ensures
        r == decoded_pixel(*d, dx as int, dy as int, size as int),
    decreases *d,
{
    match d {
        Decoded::Leaf(a, b, c, dd) => {
            match (dx == 0, dy == 0) {
                (true, true) => *a,
                (false, true) => *b,
                (true, false) => *c,
                (false, false) => *dd,
            }
        },
        Decoded::Flat(v) => *v,
        Decoded::Split(da, db, dc, dd) => {
            let s = size / 2;
            match (dx < s, dy < s) {
                (true, true) => decoded_get(da, dx, dy, s),
                (false, true) => decoded_get(db, dx - s, dy, s),
                (true, false) => decoded_get(dc, dx, dy - s, s),
                (false, false) => decoded_get(dd, dx - s, dy - s, s),
            }
        },
    }
}

/// Fills a row-major bitmap of side `rank` with the values a decoded
/// region holds.
pub fn render_bitmap(d: &Decoded, rank: usize) -> (r: Vec<u8>)
    requires
        decoded_fits(*d, rank as int),
        rank >= 2,
        rank * rank <= usize::MAX,
    ensures
        r@.len() == rank * rank,
        forall|i: int, j: int|
            0 <= i < rank && 0 <= j < rank ==> r@[i + j * rank] == decoded_pixel(
                *d,
                i,
                j,
                rank as int,
            ),
{
    let mut out: Vec<u8> = Vec::new();
    let mut j: usize = 0;
    while j < rank
        invariant
            decoded_fits(*d, rank as int),
            rank >= 2,
            rank * rank <= usize::MAX,
            j <= rank,
            out@.len() == j * rank,
            forall|i2: int, j2: int|
                0 <= i2 < rank && 0 <= j2 < j ==> out@[i2 + j2 * rank] == decoded_pixel(
                    *d,
                    i2,
                    j2,
                    rank as int,
                ),
        decreases rank - j,
    {
        let mut i: usize = 0;
        proof {
            assert((j + 1) * rank == j * rank + rank) by (nonlinear_arith);
            assert(j * rank + rank <= rank * rank) by (nonlinear_arith)
                requires
                    j < rank,
            ;
        }
        while i < rank
            invariant
                decoded_fits(*d, rank as int),
                rank >= 2,
                i <= rank,
                j < rank,
                j * rank + rank <= rank * rank <= usize::MAX,
                out@.len() == j * rank + i,
                forall|i2: int, j2: int|
                    0 <= i2 < rank && 0 <= j2 < j ==> out@[i2 + j2 * rank] == decoded_pixel(
                        *d,
                        i2,
                        j2,
                        rank as int,
                    ),
                forall|i2: int|
                    0 <= i2 < i ==> out@[i2 + j * rank] == decoded_pixel(*d, i2, j as int, rank as int),
            decreases rank - i,
        {
            let v = decoded_get(d, i, j, rank);
            out.push(v);
            i = i + 1;
            proof {
                assert forall|i2: int, j2: int|
                    0 <= i2 < rank && 0 <= j2 < j implies out@[i2 + j2 * rank] == decoded_pixel(
                    *d,
                    i2,
                    j2,
                    rank as int,
                ) by {
                    assert(j2 * rank + rank <= j * rank) by (nonlinear_arith)
                        requires
                            0 <= j2 < j,
                            rank >= 0,
                    ;
                }
            }
        }
        j = j + 1;
        proof {
            assert((j - 1) * rank + rank == j * rank) by (nonlinear_arith);
            assert forall|i2: int, j2: int|
                0 <= i2 < rank && 0 <= j2 < j implies out@[i2 + j2 * rank] == decoded_pixel(
                *d,
                i2,
                j2,
                rank as int,
            ) by {
                assert(j2 * rank + rank <= j * rank) by (nonlinear_arith)
                    requires
                        0 <= j2 < j,
                        rank >= 0,
                ;
            }
        }
    }
    out
}

/// Decodes one channel from its packed structure stream and leaf-data
/// stream into a flat bitmap of side `rank`. The decode must consume
/// the structure stream to within its final byte and the data stream
/// exactly; anything shorter or longer is a `FormatError`.
pub fn decode_channel(structure: &Vec<u8>, data: &Vec<u8>, rank: usize) -> (r: Result<
    Vec<u8>,
    CodecError,
>)
    requires
        is_pow2(rank as int),
        rank >= 2,
        rank * rank <= usize::MAX,
        structure@.len() <= usize::MAX / 8,
    ensures
        ({
            let bits = unpacked(structure@, 8 * structure@.len() as int);
            match spec_decode(bits, 0, data@, 0, rank as int) {
                Some(pos) => {
                    if (pos.0 + 7) / 8 == structure@.len() && pos.1 == data@.len() {
                        match r {
                            Ok(bm) => {
                                &&& bm@.len() == rank * rank
                                &&& exists|d: Decoded|
                                    stream_decodes(bits, 0, data@, 0, rank as int, d) && forall|
                                        i: int,
                                        j: int,
                                    |
                                        0 <= i < rank && 0 <= j < rank ==> bm@[i + j * rank]
                                            == decoded_pixel(d, i, j, rank as int)
                            },
                            Err(_) => false,
                        }
                    } else {
                        r == Err::<Vec<u8>, CodecError>(CodecError::FormatError)
                    }
                },
                None => r == Err::<Vec<u8>, CodecError>(CodecError::FormatError),
            }
        }),
{
    let (d, bp, dp) = match decode_node(structure, data, 0, 0, rank) {
        Ok(v) => v,
        Err(e) => {
            return Err(e);
        },
    };
    proof {
        let bits = unpacked(structure@, 8 * structure@.len() as int);
        lemma_decode_bounds(bits, 0, data@, 0, rank as int);
        assert(8 * (usize::MAX / 8) <= usize::MAX - 7);
    }
    if !((bp + 7) / 8 == structure.len() && dp == data.len()) {
        return Err(CodecError::FormatError);
    }
    let bm = render_bitmap(&d, rank);
    proof {
        let bits = unpacked(structure@, 8 * structure@.len() as int);
        assert(stream_decodes(bits, 0, data@, 0, rank as int, d) && forall|i: int, j: int|
            0 <= i < rank && 0 <= j < rank ==> bm@[i + j * rank] == decoded_pixel(
                d,
                i,
                j,
                rank as int,
            ));
    }
    Ok(bm)
}

} // verus!
