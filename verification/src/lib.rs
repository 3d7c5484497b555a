//! An adaptive lossy image codec built on a region quadtree: a square
//! bitmap whose side is a power of two is partitioned recursively, each
//! region carries its value range, and a caller-chosen cutoff trades
//! fidelity for size by collapsing low-contrast regions into a single
//! interpolated value. One tree is built per color channel after a
//! fixed luma/chroma transform; the serializer emits a bit-packed
//! structure stream and a parallel leaf-data stream per channel, and
//! the decoder walks them back into channel bitmaps.

#![allow(unused_imports)]

use vstd::prelude::*;

pub mod quadtree;
pub mod serialize;
pub mod compressor;

verus! {

/// Errors that the codec reports to its caller.
#[derive(Clone, Copy, Debug, PartialEq, Eq, Structural)]
pub enum CodecError {
    /// The bitmap length is not a square of a power of two at least 2.
    InvalidDimensions,
    /// A query point lies outside the square `[0, rank) x [0, rank)`.
    OutOfBounds,
    /// The structure stream or the leaf-data stream ends prematurely,
    /// or the two disagree on length.
    FormatError,
}

} // verus!
