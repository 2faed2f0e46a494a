//! The distance alphabet: its parameters and the constants that bound it.
use vstd::arithmetic::power2;
use vstd::bits;
use vstd::prelude::*;

verus! {

/// Largest number of postfix bits the format allows.
pub const MAX_NPOSTFIX: u32 = 3;

/// Largest number of direct distance codes.
pub const MAX_NDIRECT: u32 = 120;

/// Number of short distance codes.
pub const NUM_DISTANCE_SHORT_CODES: u32 = 16;

/// Largest number of distance bits.
pub const MAX_DISTANCE_BITS: u32 = 24;

/// Distance symbols a histogram reserves.
pub const NUM_HISTOGRAM_DISTANCE_SYMBOLS: usize = 544;

/// Distance alphabet size assuming no postfix or direct codes.
pub const MAX_SIMPLE_DISTANCE_ALPHABET_SIZE: usize = 140;

/// Resolved distance alphabet.
#[derive(Copy, Clone, Debug, PartialEq, Eq, Structural)]
pub struct DistanceParams {
    /// Number of postfix bits.
    pub postfix_bits: u32,
    /// Number of direct distance codes.
    pub num_direct: u32,
    /// Size of the distance alphabet that is written to the stream.
    pub alphabet_size_max: u32,
    /// Size of the distance alphabet that can actually occur.
    pub alphabet_size_limit: u32,
    /// Largest distance this alphabet can express.
    pub max_distance: u32,
}

/// The size of an alphabet: the short codes, the direct ones, and two codes per
/// distance bit and postfix.
pub open spec fn alphabet_size(postfix_bits: nat, num_direct: int) -> int {
    NUM_DISTANCE_SHORT_CODES + num_direct + MAX_DISTANCE_BITS * power2::pow2(postfix_bits + 1)
}

/// The largest distance an alphabet can express.
pub open spec fn largest_distance(postfix_bits: nat, num_direct: int) -> int {
    num_direct + power2::pow2(MAX_DISTANCE_BITS as nat + postfix_bits + 2) - power2::pow2(
        postfix_bits + 2,
    )
}

impl DistanceParams {
    /// The alphabet of a number of postfix bits and direct codes.
    pub open spec fn of(postfix_bits: u32, num_direct: u32) -> Self {
        let size = alphabet_size(postfix_bits as nat, num_direct as int) as u32;
        DistanceParams {
            postfix_bits,
            num_direct,
            alphabet_size_max: size,
            alphabet_size_limit: size,
            max_distance: largest_distance(postfix_bits as nat, num_direct as int) as u32,
        }
    }

    /// Builds the alphabet for a number of postfix bits and direct codes.
    ///
    /// The limit and the maximum alphabet always coincide.
    pub fn new(postfix_bits: u32, num_direct: u32) -> (params: Self)
        requires
            postfix_bits <= 5,
            num_direct + power2::pow2((26 + postfix_bits) as nat) <= u32::MAX,
        ensures
            params == Self::of(postfix_bits, num_direct),
            params.alphabet_size_max == alphabet_size(postfix_bits as nat, num_direct as int),
            params.max_distance == largest_distance(postfix_bits as nat, num_direct as int),
    {
        proof {
            power2::lemma2_to64();
            bits::lemma_u32_shl_is_mul(MAX_DISTANCE_BITS, (postfix_bits + 1) as u32);
            bits::lemma_u32_shl_is_mul(1, (MAX_DISTANCE_BITS + postfix_bits + 2) as u32);
            bits::lemma_u32_shl_is_mul(1, (postfix_bits + 2) as u32);
            power2::lemma_pow2_strictly_increases(
                (postfix_bits + 2) as nat,
                (26 + postfix_bits) as nat,
            );
        }
        let alphabet_size_max: u32 = NUM_DISTANCE_SHORT_CODES + num_direct + (MAX_DISTANCE_BITS << (
        postfix_bits + 1));
        let max_distance: u32 = num_direct + (1u32 << (MAX_DISTANCE_BITS + postfix_bits + 2)) - (1u32
            << (postfix_bits + 2));
        DistanceParams {
            postfix_bits,
            num_direct,
            alphabet_size_max,
            alphabet_size_limit: alphabet_size_max,
            max_distance,
        }
    }
}

impl Default for DistanceParams {
    /// Returns the alphabet with neither postfix nor direct codes.
    fn default() -> (params: Self)
        ensures
            params == Self::of(0, 0),
    {
        proof {
            power2::lemma2_to64();
        }
        Self::new(0, 0)
    }
}

} // verus!
