//! The acceptance window of an intersection test, and the choice between the
//! two places where a ray meets a surface.
//!
//! A place along a ray is handled as a `u64` key that grows with the distance
//! from the ray's origin: the key of the bit pattern of an IEEE 754 binary64
//! number, which is a sign bit over a magnitude. `key_of_bits` makes the key
//! of a pattern and `bits_of_key` leads back.

use vstd::prelude::*;

verus! {

/// The top bit of a bit pattern: the sign.
pub const SIGN_BIT: u64 = 0x8000_0000_0000_0000;

/// Where a bit pattern of a sign bit over a 63-bit magnitude stands on the
/// number line: at its magnitude, or at minus its magnitude where the sign
/// bit is set.
pub open spec fn sign_magnitude(bits: u64) -> int {
    if bits < SIGN_BIT {
        bits as int
    } else {
        -(bits - SIGN_BIT)
    }
}

/// The key of a bit pattern: patterns without the sign bit are moved above
/// all others, patterns with it are turned over.
pub open spec fn spec_key_of_bits(bits: u64) -> u64 {
    if bits < SIGN_BIT {
        (bits + SIGN_BIT) as u64
    } else {
        (u64::MAX - bits) as u64
    }
}

/// The key of a bit pattern of a sign bit over a magnitude. Keys order as
/// the patterns do on the number line, minus zero below zero.
#[verifier::when_used_as_spec(spec_key_of_bits)]
pub fn key_of_bits(bits: u64) -> (key: u64)
    ensures
        key == spec_key_of_bits(bits),
{
    if bits < SIGN_BIT {
        bits + SIGN_BIT
    } else {
        u64::MAX - bits
    }
}

/// The bit pattern that a key was made from.
pub fn bits_of_key(key: u64) -> (bits: u64)
    ensures
        key_of_bits(bits) == key,
{
    if key >= SIGN_BIT {
        key - SIGN_BIT
    } else {
        u64::MAX - key
    }
}

/// Keys order as the bit patterns do on the number line: a pattern that
/// stands further left has the smaller key, and of the two zeros the negative
/// one has the smaller key. Different patterns have different keys.
pub proof fn lemma_keys_keep_the_order(a: u64, b: u64)
    ensures
        sign_magnitude(a) < sign_magnitude(b) ==> key_of_bits(a) < key_of_bits(b),
        key_of_bits(a) < key_of_bits(b) ==> sign_magnitude(a) <= sign_magnitude(b),
        key_of_bits(a) == key_of_bits(b) <==> a == b,
        key_of_bits(SIGN_BIT) < key_of_bits(0),
{
}

/// The places along a ray at which a hit counts: those from `min` to `max`,
/// both ends included.
#[derive(Clone, Copy, Debug, PartialEq, Eq, Structural)]
pub struct Window {
    pub min: u64,
    pub max: u64,
}

impl Window {
    /// `time` lies in the window.
    pub open spec fn spec_contains(&self, time: u64) -> bool {
        self.min <= time && time <= self.max
    }

    /// Whether `time` lies in the window.
    #[verifier::when_used_as_spec(spec_contains)]
    pub fn contains(&self, time: u64) -> (b: bool)
        ensures
            b == self.spec_contains(time),
    {
        self.min <= time && time <= self.max
    }
}

/// The bit pattern of one thousandth as a binary64 number. A hit nearer than
/// this is taken to be the ray meeting the surface it has just left.
pub const SKIN_DEPTH_BITS: u64 = 0x3F50_624D_D2F1_A9FC;

/// The bit pattern of the largest finite binary64 number.
pub const FARTHEST_BITS: u64 = 0x7FEF_FFFF_FFFF_FFFF;

impl Window {
    /// The window in which a ray is followed: from the skin depth to the
    /// largest finite number.
    pub open spec fn spec_ahead() -> Window {
        Window { min: key_of_bits(SKIN_DEPTH_BITS), max: key_of_bits(FARTHEST_BITS) }
    }

    /// The window in which a ray is followed: from the skin depth to the
    /// largest finite number.
    #[verifier::when_used_as_spec(spec_ahead)]
    pub fn ahead() -> (window: Window)
        ensures
            window == Window::spec_ahead(),
            window.min > key_of_bits(0),
            window.min <= window.max,
    {
        Window { min: key_of_bits(SKIN_DEPTH_BITS), max: key_of_bits(FARTHEST_BITS) }
    }
}

/// A surface that lies behind a ray is not hit: where the window starts at
/// zero or beyond, a place left of zero on the number line is outside it.
pub proof fn lemma_behind_is_outside(bits: u64, window: Window)
    requires
        sign_magnitude(bits) < 0,
        window.min >= key_of_bits(0),
    ensures
        !window.contains(key_of_bits(bits)),
{
}

/// Of the two places where a ray meets a surface, in either order, the
/// smallest that lies in the window; `None` exactly where neither does.
pub fn nearest_root(first: u64, second: u64, window: &Window) -> (r: Option<u64>)
    ensures
        r is None <==> !window.contains(first) && !window.contains(second),
        r matches Some(time) ==> {
            &&& time == first || time == second
            &&& window.contains(time)
            &&& window.contains(first) ==> time <= first
            &&& window.contains(second) ==> time <= second
        },
{
    let (low, high) = if first <= second {
        (first, second)
    } else {
        (second, first)
    };
    if window.contains(low) {
        Some(low)
    } else if window.contains(high) {
        Some(high)
    } else {
        None
    }
}

} // verus!
