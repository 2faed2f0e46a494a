//! Sanitised encoder parameters and the deterministic hasher plan.
//!
//! Everything here is resolved once, before any hot loop runs: the quality
//! routing, the block sizes, the distance alphabet and the matcher choice are
//! all functions of the caller's parameters alone. In particular the matcher
//! never depends on the instruction set.
use vstd::arithmetic::power2;
use vstd::bits;
use vstd::prelude::*;

use crate::config;
use crate::config::{
    BrotliCompressError, CompressMode, CompressParams, DistanceCodes, QualityLevel,
    WindowBits,
};
use crate::greedy::chain::ChainShape;
use crate::greedy::finder;
use crate::greedy::finder::BucketShape;
use crate::math;
use crate::shared::distance::{DistanceParams, MAX_NDIRECT, MAX_NPOSTFIX};

verus! {

/// Bytes at the end of the window no distance reaches.
pub const WINDOW_GAP: usize = 16;

/// Smallest quality that splits meta-blocks into blocks.
pub const MIN_QUALITY_FOR_BLOCK_SPLIT: usize = 4;

/// Smallest quality that searches every candidate at a delayed position.
pub const MIN_QUALITY_FOR_EXTENSIVE_REFERENCE_SEARCH: usize = 5;

/// Smallest quality that models literal contexts.
pub const MIN_QUALITY_FOR_CONTEXT_MODELING: usize = 5;

/// Symbols buffered before a quality below four has to flush.
pub const MAX_NUM_DELAYED_SYMBOLS: usize = 0x2FFF;

/// Smallest explicit input block size, in bits.
pub const MIN_INPUT_BLOCK_BITS: usize = 16;

/// Largest input block size, in bits.
pub const MAX_INPUT_BLOCK_BITS: usize = 24;

/// Size hint at which quality four and five switch to their large matchers.
pub const LARGE_INPUT_SIZE_HINT: usize = 0x10_0000;

/// The three qualities this encoder implements.
#[derive(Copy, Clone, Debug, PartialEq, Eq, PartialOrd, Ord, Structural)]
pub enum GreedyQuality {
    /// Quick matcher, trivial meta-block storage.
    Q3,
    /// Block splitting, histogram optimisation, distance parameters.
    Q4,
    /// Extensive search and literal context modelling.
    Q5,
}

impl GreedyQuality {
    /// The numeric quality.
    pub open spec fn of(self) -> usize {
        match self {
            GreedyQuality::Q3 => 3,
            GreedyQuality::Q4 => 4,
            GreedyQuality::Q5 => 5,
        }
    }

    /// Returns the numeric quality.
    pub fn number(self) -> (n: usize)
        ensures
            n == self.of(),
    {
        match self {
            GreedyQuality::Q3 => 3,
            GreedyQuality::Q4 => 4,
            GreedyQuality::Q5 => 5,
        }
    }

    /// Returns whether this quality splits a meta-block into blocks.
    pub fn splits_blocks(self) -> (splits: bool)
        ensures
            splits == (self.of() >= MIN_QUALITY_FOR_BLOCK_SPLIT),
    {
        self.number() >= MIN_QUALITY_FOR_BLOCK_SPLIT
    }

    /// Returns whether a delayed search re-examines every candidate.
    pub fn extensive_reference_search(self) -> (extensive: bool)
        ensures
            extensive == (self.of() >= MIN_QUALITY_FOR_EXTENSIVE_REFERENCE_SEARCH),
    {
        self.number() >= MIN_QUALITY_FOR_EXTENSIVE_REFERENCE_SEARCH
    }

    /// Returns whether this quality may model literal contexts at all.
    pub fn models_literal_contexts(self) -> (models: bool)
        ensures
            models == (self.of() >= MIN_QUALITY_FOR_CONTEXT_MODELING),
    {
        self.number() >= MIN_QUALITY_FOR_CONTEXT_MODELING
    }

    /// What routing a quality to the greedy path gives.
    pub open spec fn route(value: QualityLevel) -> Result<Self, BrotliCompressError> {
        match value {
            QualityLevel::Q3 => Ok(GreedyQuality::Q3),
            QualityLevel::Q4 => Ok(GreedyQuality::Q4),
            QualityLevel::Q5 => Ok(GreedyQuality::Q5),
            other => Err(BrotliCompressError::UnsupportedQuality(other.number())),
        }
    }
}

impl TryFrom<QualityLevel> for GreedyQuality {
    type Error = BrotliCompressError;

    /// Routes qualities three to five to the greedy path.
    ///
    /// Every other quality belongs to a different encoder.
    fn try_from(value: QualityLevel) -> (result: Result<Self, BrotliCompressError>)
        ensures
            result == GreedyQuality::route(value),
    {
        match value {
            QualityLevel::Q3 => Ok(GreedyQuality::Q3),
            QualityLevel::Q4 => Ok(GreedyQuality::Q4),
            QualityLevel::Q5 => Ok(GreedyQuality::Q5),
            other => Err(BrotliCompressError::UnsupportedQuality(usize::from(other))),
        }
    }
}

impl vstd::std_specs::convert::TryFromSpecImpl<QualityLevel> for GreedyQuality {
    open spec fn obeys_try_from_spec() -> bool {
        true
    }

    open spec fn try_from_spec(value: QualityLevel) -> Result<Self, BrotliCompressError> {
        GreedyQuality::route(value)
    }
}

/// The distance parameters a quality and mode settle on before the format is
/// asked whether it can express them.
pub open spec fn requested_distance(
    quality: GreedyQuality,
    mode: CompressMode,
    codes: DistanceCodes,
) -> (u32, u32) {
    if quality.of() < MIN_QUALITY_FOR_BLOCK_SPLIT {
        (0, 0)
    } else if mode == CompressMode::Font {
        (1, 12)
    } else {
        (codes.postfix(), codes.direct())
    }
}

/// The distance alphabet of a quality, mode and caller request.
pub open spec fn distance_choice(
    quality: GreedyQuality,
    mode: CompressMode,
    codes: DistanceCodes,
) -> DistanceParams {
    let (postfix_bits, num_direct) = requested_distance(quality, mode, codes);
    if config::distance_codes_valid(postfix_bits, num_direct) {
        DistanceParams::of(postfix_bits, num_direct)
    } else {
        DistanceParams::of(0, 0)
    }
}

/// The alphabet that is chosen is one the format can express; fonts get twelve direct codes
/// and one postfix bit, a request that can be expressed is granted otherwise, and the lowest
/// quality has neither.
pub proof fn lemma_choice_is_expressible(
    quality: GreedyQuality,
    mode: CompressMode,
    codes: DistanceCodes,
)
    ensures
        ({
            let chosen = distance_choice(quality, mode, codes);
            let groups = power2::pow2(chosen.postfix_bits as nat) as int;
            &&& chosen.postfix_bits <= 3
            &&& chosen.num_direct as int % groups == 0
            &&& chosen.num_direct as int / groups <= 15
            &&& quality is Q3 ==> chosen.postfix_bits == 0 && chosen.num_direct == 0
            &&& quality !is Q3 && mode is Font ==> chosen.postfix_bits == 1 && chosen.num_direct
                == 12
            &&& quality !is Q3 && mode !is Font && config::distance_codes_valid(
                codes.postfix(),
                codes.direct(),
            ) ==> chosen.postfix_bits == codes.postfix() && chosen.num_direct == codes.direct()
        }),
{
    power2::lemma2_to64();
    assert(12nat % 2 == 0 && 12nat / 2 == 6 && 0nat % 1 == 0 && 0nat / 1 == 0);
}

/// Chooses the distance alphabet for a quality, mode and caller request.
///
/// Font mode asks for one postfix bit and twelve direct codes, every other mode
/// uses whatever the caller configured, and a combination the format cannot
/// express falls back to zero. Qualities below four always use zero.
pub fn choose_distance_params(
    quality: GreedyQuality,
    mode: CompressMode,
    codes: DistanceCodes,
) -> (params: DistanceParams)
    ensures
        params == distance_choice(quality, mode, codes),
{
    let mut postfix_bits: u32 = 0;
    let mut num_direct: u32 = 0;
    if quality.number() >= MIN_QUALITY_FOR_BLOCK_SPLIT {
        if matches!(mode, CompressMode::Font) {
            postfix_bits = 1;
            num_direct = 12;
        } else {
            postfix_bits = codes.postfix_bits();
            num_direct = codes.direct_codes();
        }
    }
    proof {
        power2::lemma2_to64();
        assert(config::distance_codes_valid(0, 0));
    }
    if postfix_bits > MAX_NPOSTFIX || num_direct > MAX_NDIRECT {
        return DistanceParams::new(0, 0);
    }
    let groups: u32 = (num_direct >> postfix_bits) & 0x0F;
    proof {
        math::lemma_whole_groups(num_direct, postfix_bits);
    }
    if (groups << postfix_bits) != num_direct {
        return DistanceParams::new(0, 0);
    }
    DistanceParams::new(postfix_bits, num_direct)
}

/// The matcher a set of parameters selects, with its shape baked in.
///
/// It follows from quality, window size and size hint only, so two runs with the
/// same parameters always search the same candidates in the same order.
#[derive(Copy, Clone, Debug, PartialEq, Eq, Structural)]
pub enum HasherPlan {
    /// Quality 3: quick matcher, sixteen bucket bits.
    H3,
    /// Quality 4 below the size-hint threshold: quick matcher with a shallow
    /// static-dictionary probe.
    H4,
    /// Quality 4 at or above the size-hint threshold: wider quick matcher,
    /// seven-byte hash, no dictionary probe.
    H54,
    /// Quality 5 with a small window: forgetful chains over one bank.
    H40,
    /// Quality 5: bucketed matcher over a four-byte hash.
    H5 {
        /// Base-2 logarithm of the number of buckets.
        bucket_bits: u32,
        /// Base-2 logarithm of the number of slots per bucket.
        block_bits: u32,
        /// How many cached distances are probed before the bucket.
        last_distances: usize,
    },
    /// Quality 5 for large inputs: bucketed matcher over an eight-byte read.
    H6 {
        /// Base-2 logarithm of the number of buckets.
        bucket_bits: u32,
        /// Base-2 logarithm of the number of slots per bucket.
        block_bits: u32,
        /// How many cached distances are probed before the bucket.
        last_distances: usize,
    },
}

/// The matcher for a quality, window and size hint.
pub open spec fn hasher_choice(quality: GreedyQuality, lgwin: usize, size_hint: usize) -> HasherPlan {
    match quality {
        GreedyQuality::Q3 => HasherPlan::H3,
        GreedyQuality::Q4 => if size_hint >= LARGE_INPUT_SIZE_HINT {
            HasherPlan::H54
        } else {
            HasherPlan::H4
        },
        GreedyQuality::Q5 => if lgwin <= 16 {
            HasherPlan::H40
        } else if size_hint >= LARGE_INPUT_SIZE_HINT && lgwin >= 19 {
            HasherPlan::H6 { bucket_bits: 15, block_bits: 4, last_distances: 4 }
        } else {
            HasherPlan::H5 { bucket_bits: 14, block_bits: 4, last_distances: 4 }
        },
    }
}

/// Selects the matcher for `quality`, `lgwin` and `size_hint`.
pub fn choose_hasher(quality: GreedyQuality, lgwin: usize, size_hint: usize) -> (plan: HasherPlan)
    ensures
        plan == hasher_choice(quality, lgwin, size_hint),
{
    match quality {
        GreedyQuality::Q3 => HasherPlan::H3,
        GreedyQuality::Q4 => {
            if size_hint >= LARGE_INPUT_SIZE_HINT {
                HasherPlan::H54
            } else {
                HasherPlan::H4
            }
        },
        GreedyQuality::Q5 => {
            if lgwin <= 16 {
                HasherPlan::H40
            } else if size_hint >= LARGE_INPUT_SIZE_HINT && lgwin >= 19 {
                HasherPlan::H6 { bucket_bits: 15, block_bits: 4, last_distances: 4 }
            } else {
                HasherPlan::H5 { bucket_bits: 14, block_bits: 4, last_distances: 4 }
            }
        },
    }
}

impl HasherPlan {
    /// The shape the match finder is built with.
    pub open spec fn shape(self) -> finder::HasherPlan {
        match self {
            HasherPlan::H3 => finder::HasherPlan::H3,
            HasherPlan::H4 => finder::HasherPlan::H4,
            HasherPlan::H54 => finder::HasherPlan::H54,
            HasherPlan::H40 => finder::HasherPlan::Chain(
                ChainShape { num_banks: 1, bank_bits: 16, last_distances: 4, max_hops: 16 },
            ),
            HasherPlan::H5 { bucket_bits, block_bits, last_distances } => finder::HasherPlan::H5(
                BucketShape { bucket_bits, block_bits, last_distances },
            ),
            HasherPlan::H6 { bucket_bits, block_bits, last_distances } => finder::HasherPlan::H6(
                BucketShape { bucket_bits, block_bits, last_distances },
            ),
        }
    }

    /// Returns the shape the match finder is built with.
    pub fn finder_plan(self) -> (plan: finder::HasherPlan)
        ensures
            plan == self.shape(),
            finder::plan_ok(plan),
    {
        match self {
            HasherPlan::H3 => finder::HasherPlan::H3,
            HasherPlan::H4 => finder::HasherPlan::H4,
            HasherPlan::H54 => finder::HasherPlan::H54,
            HasherPlan::H40 => finder::HasherPlan::Chain(
                ChainShape { num_banks: 1, bank_bits: 16, last_distances: 4, max_hops: 16 },
            ),
            HasherPlan::H5 { bucket_bits, block_bits, last_distances } => finder::HasherPlan::H5(
                BucketShape { bucket_bits, block_bits, last_distances },
            ),
            HasherPlan::H6 { bucket_bits, block_bits, last_distances } => finder::HasherPlan::H6(
                BucketShape { bucket_bits, block_bits, last_distances },
            ),
        }
    }
}

/// The block size a quality uses: fourteen bits below four, sixteen by default,
/// an explicit request clamped into the range the format allows.
pub open spec fn lgblock_choice(quality: GreedyQuality, requested: Option<usize>) -> usize {
    if quality.of() < MIN_QUALITY_FOR_BLOCK_SPLIT {
        14
    } else {
        match requested {
            None => 16,
            Some(lgblock) => if lgblock < MIN_INPUT_BLOCK_BITS {
                MIN_INPUT_BLOCK_BITS
            } else if lgblock > MAX_INPUT_BLOCK_BITS {
                MAX_INPUT_BLOCK_BITS
            } else {
                lgblock
            },
        }
    }
}

/// Returns the block size `quality` uses.
pub fn compute_lgblock(quality: GreedyQuality, requested: Option<usize>) -> (bits: usize)
    ensures
        bits == lgblock_choice(quality, requested),
{
    if quality.number() < MIN_QUALITY_FOR_BLOCK_SPLIT {
        return 14;
    }
    match requested {
        None => 16,
        Some(lgblock) => {
            if lgblock < MIN_INPUT_BLOCK_BITS {
                MIN_INPUT_BLOCK_BITS
            } else if lgblock > MAX_INPUT_BLOCK_BITS {
                MAX_INPUT_BLOCK_BITS
            } else {
                lgblock
            }
        },
    }
}

/// Every parameter the greedy encoder needs, already sanitised.
#[derive(Copy, Clone, Debug)]
pub struct GreedyParams {
    /// Quality this encoder runs at.
    pub quality: GreedyQuality,
    /// Base-2 logarithm of the sliding window.
    pub lgwin: usize,
    /// Base-2 logarithm of the input block size.
    pub lgblock: usize,
    /// Expected total input size, used only to select the matcher.
    pub size_hint: usize,
    /// Whether literal context modelling is switched off by the caller.
    pub disable_literal_context_modeling: bool,
    /// Resolved distance alphabet.
    pub dist: DistanceParams,
    /// Resolved matcher.
    pub hasher: HasherPlan,
    /// How much of a stream precedes this one, zero for an ordinary stream.
    pub stream_offset: usize,
}

impl GreedyParams {
    /// The window and block sizes are ones an encoder uses.
    pub open spec fn wf(&self) -> bool {
        &&& 10 <= self.lgwin <= 30
        &&& 14 <= self.lgblock <= MAX_INPUT_BLOCK_BITS
    }

    /// What a caller's parameters resolve to, for a supported quality.
    pub open spec fn resolved(params: config::Settings, quality: GreedyQuality, size_hint: usize) -> Self {
        GreedyParams {
            quality,
            lgwin: params.lgwin.value() as usize,
            lgblock: lgblock_choice(
                quality,
                match params.lgblock {
                    Some(bits) => Some(bits.value()),
                    None => None,
                },
            ),
            size_hint,
            disable_literal_context_modeling: !params.literal_context_modeling,
            dist: distance_choice(quality, params.mode, params.distance_codes),
            hasher: hasher_choice(quality, params.lgwin.value() as usize, size_hint),
            stream_offset: 0,
        }
    }

    /// Resolves `params` for a stream whose size hint is `size_hint`.
    ///
    /// A quality outside the range this encoder implements is refused.
    pub fn new(params: &CompressParams, size_hint: usize) -> (result: Result<
        Self,
        BrotliCompressError,
    >)
        ensures
            match GreedyQuality::route(params@.quality) {
                Ok(quality) => result == Ok::<Self, BrotliCompressError>(
                    Self::resolved(params@, quality, size_hint),
                ),
                Err(error) => result == Err::<Self, _>(error),
            },
            result is Ok && params@.lgwin.value() <= 30 ==> result->Ok_0.wf(),
    {
        let quality: GreedyQuality = match GreedyQuality::try_from(params.quality()) {
            Ok(quality) => quality,
            Err(error) => return Err(error),
        };
        let window: WindowBits = params.lgwin();
        let lgwin: usize = window.bits() as usize;
        let requested: Option<usize> = match params.lgblock() {
            Some(bits) => Some(usize::from(bits)),
            None => None,
        };
        let lgblock: usize = compute_lgblock(quality, requested);
        Ok(
            GreedyParams {
                quality,
                lgwin,
                lgblock,
                size_hint,
                disable_literal_context_modeling: !params.literal_context_modeling(),
                dist: choose_distance_params(quality, params.mode(), params.distance_codes()),
                hasher: choose_hasher(quality, lgwin, size_hint),
                stream_offset: 0,
            },
        )
    }

    /// Returns the number of bytes one step may consume.
    pub fn input_block_size(&self) -> (size: usize)
        requires
            self.lgblock < usize::BITS,
        ensures
            size == power2::pow2(self.lgblock as nat),
    {
        proof {
            math::lemma_one_shl(self.lgblock);
        }
        1usize << self.lgblock
    }

    /// The ring buffer's window size in bits.
    pub open spec fn ring_bits(&self) -> int {
        1 + if self.lgwin > self.lgblock {
            self.lgwin
        } else {
            self.lgblock
        }
    }

    /// Returns the ring buffer's window size in bits.
    pub fn rb_bits(&self) -> (bits: usize)
        requires
            self.lgwin < usize::MAX,
            self.lgblock < usize::MAX,
        ensures
            bits == self.ring_bits(),
    {
        1 + if self.lgwin > self.lgblock {
            self.lgwin
        } else {
            self.lgblock
        }
    }

    /// Returns the largest meta-block this encoder emits.
    pub fn max_metablock_size(&self) -> (size: usize)
        requires
            self.lgwin < usize::MAX,
            self.lgblock < usize::MAX,
        ensures
            size == if self.ring_bits() < MAX_INPUT_BLOCK_BITS {
                power2::pow2(self.ring_bits() as nat)
            } else {
                power2::pow2(MAX_INPUT_BLOCK_BITS as nat)
            },
    {
        let ring: usize = self.rb_bits();
        let bits: usize = if ring < MAX_INPUT_BLOCK_BITS {
            ring
        } else {
            MAX_INPUT_BLOCK_BITS
        };
        proof {
            math::lemma_one_shl(bits);
        }
        1usize << bits
    }

    /// Returns the largest backward distance.
    pub fn max_backward_limit(&self) -> (limit: usize)
        requires
            4 <= self.lgwin < usize::BITS,
        ensures
            limit == power2::pow2(self.lgwin as nat) - WINDOW_GAP,
    {
        proof {
            math::lemma_one_shl(self.lgwin);
            power2::lemma2_to64();
            if self.lgwin > 4 {
                power2::lemma_pow2_strictly_increases(4, self.lgwin as nat);
            }
        }
        (1usize << self.lgwin) - WINDOW_GAP
    }

    /// Returns the literal spree length that triggers the sparse search.
    pub fn random_heuristics_window_size(&self) -> (length: usize)
        ensures
            length == 64,
    {
        64
    }
}

} // verus!
