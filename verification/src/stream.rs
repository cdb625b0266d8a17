//! Random streams: every estimate of a render gets a generator of its own,
//! made from a seed that follows from the render's seed and the estimate's
//! place in the scan. A render is then the same on every run with the same
//! seed, in whatever order its estimates are taken.

use rand::rngs::StdRng;
use rand::SeedableRng;
use vstd::prelude::*;

verus! {

/// `rand::rngs::StdRng`, carried through as a value that nothing is known of.
#[verifier::external_type_specification]
#[verifier::external_body]
pub struct ExStdRng(StdRng);

/// The generator that `StdRng::seed_from_u64` makes from `seed`.
pub uninterp spec fn generator_of(seed: u64) -> StdRng;

/// `rand::SeedableRng::seed_from_u64` for `rand::rngs::StdRng`. Believed, not
/// proved: the generator that comes back is a function of the seed alone.
#[verifier::external_body]
pub(crate) fn generator(seed: u64) -> (rng: StdRng)
    ensures
        rng == generator_of(seed),
{
    StdRng::seed_from_u64(seed)
}

/// The place of an estimate in the scan of an image `width` pixels wide with
/// `count` estimates per pixel: rows from 0 up, columns within a row, and
/// estimates within a pixel.
#[verifier::opaque]
pub open spec fn ordinal(width: nat, count: nat, x: nat, y: nat, taken: nat) -> nat {
    (y * width + x) * count + taken
}

/// The seed of the stream of the estimate at place `at` of a render with seed
/// `seed`: their sum, wrapped to 64 bits.
pub open spec fn stream_seed(seed: u64, at: nat) -> u64 {
    ((seed + at) % 0x1_0000_0000_0000_0000) as u64
}

/// The seed that follows `stream`, wrapped to 64 bits.
pub open spec fn spec_following(stream: u64) -> u64 {
    if stream == u64::MAX {
        0
    } else {
        (stream + 1) as u64
    }
}

/// The seed that follows `stream`, wrapped to 64 bits.
#[verifier::when_used_as_spec(spec_following)]
pub fn following(stream: u64) -> (next: u64)
    ensures
        next == spec_following(stream),
{
    if stream == u64::MAX {
        0
    } else {
        stream + 1
    }
}

/// The stream of the next place has the seed that follows.
pub proof fn lemma_following_stream(seed: u64, at: nat)
    ensures
        stream_seed(seed, at + 1) == following(stream_seed(seed, at)),
{
}

/// The scan starts at place 0, with the first estimate of the first pixel of
/// row 0.
pub proof fn lemma_ordinal_start(width: nat, count: nat)
    ensures
        ordinal(width, count, 0, 0, 0) == 0,
{
    reveal(ordinal);
    assert((0 * width + 0) * count == 0) by (nonlinear_arith);
}

/// After an estimate of a pixel comes the next estimate of that pixel.
pub proof fn lemma_ordinal_next_estimate(width: nat, count: nat, x: nat, y: nat, taken: nat)
    ensures
        ordinal(width, count, x, y, taken + 1) == ordinal(width, count, x, y, taken) + 1,
{
    reveal(ordinal);
}

/// After the last estimate of a pixel comes the first of the next pixel in
/// the row.
pub proof fn lemma_ordinal_next_pixel(width: nat, count: nat, x: nat, y: nat)
    ensures
        ordinal(width, count, x, y, count) == ordinal(width, count, x + 1, y, 0),
{
    reveal(ordinal);
    assert((y * width + x) * count + count == (y * width + (x + 1)) * count)
        by (nonlinear_arith);
}

/// After the last pixel of a row comes the first of the next row.
pub proof fn lemma_ordinal_next_row(width: nat, count: nat, y: nat)
    ensures
        ordinal(width, count, width, y, 0) == ordinal(width, count, 0, y + 1, 0),
{
    reveal(ordinal);
    assert((y * width + width) * count == ((y + 1) * width + 0) * count) by (nonlinear_arith);
}

/// Different estimates of an image have different places in the scan.
pub proof fn lemma_ordinals_are_distinct(
    width: nat,
    count: nat,
    x1: nat,
    y1: nat,
    taken1: nat,
    x2: nat,
    y2: nat,
    taken2: nat,
)
    requires
        x1 < width,
        x2 < width,
        taken1 < count,
        taken2 < count,
        ordinal(width, count, x1, y1, taken1) == ordinal(width, count, x2, y2, taken2),
    ensures
        x1 == x2,
        y1 == y2,
        taken1 == taken2,
{
    reveal(ordinal);
    let pixel1 = y1 * width + x1;
    let pixel2 = y2 * width + x2;
    assert(pixel1 == pixel2 && taken1 == taken2) by (nonlinear_arith)
        requires
            pixel1 * count + taken1 == pixel2 * count + taken2,
            taken1 < count,
            taken2 < count,
    {
        if pixel1 < pixel2 {
            assert(pixel2 * count >= (pixel1 + 1) * count);
            assert((pixel1 + 1) * count == pixel1 * count + count);
        } else if pixel2 < pixel1 {
            assert(pixel1 * count >= (pixel2 + 1) * count);
            assert((pixel2 + 1) * count == pixel2 * count + count);
        }
    }
    assert(y1 == y2 && x1 == x2) by (nonlinear_arith)
        requires
            y1 * width + x1 == y2 * width + x2,
            x1 < width,
            x2 < width,
    {
        if y1 < y2 {
            assert(y2 * width >= (y1 + 1) * width);
            assert((y1 + 1) * width == y1 * width + width);
        } else if y2 < y1 {
            assert(y1 * width >= (y2 + 1) * width);
            assert((y2 + 1) * width == y2 * width + width);
        }
    }
}

/// In a render of fewer than 2^64 estimates, different estimates have
/// streams of different seeds.
pub proof fn lemma_streams_are_distinct(
    seed: u64,
    width: nat,
    count: nat,
    x1: nat,
    y1: nat,
    taken1: nat,
    x2: nat,
    y2: nat,
    taken2: nat,
)
    requires
        x1 < width,
        x2 < width,
        taken1 < count,
        taken2 < count,
        ordinal(width, count, x1, y1, taken1) < 0x1_0000_0000_0000_0000,
        ordinal(width, count, x2, y2, taken2) < 0x1_0000_0000_0000_0000,
        stream_seed(seed, ordinal(width, count, x1, y1, taken1)) == stream_seed(
            seed,
            ordinal(width, count, x2, y2, taken2),
        ),
    ensures
        x1 == x2,
        y1 == y2,
        taken1 == taken2,
{
    lemma_ordinals_are_distinct(width, count, x1, y1, taken1, x2, y2, taken2);
}

} // verus!
