//! The match finder a stream uses, chosen once from its parameters.
use vstd::arithmetic::power2;
use vstd::prelude::*;

use crate::backend::{Backend, BackendKind};
use crate::greedy::bucket::BucketMatcher;
use crate::greedy::chain::{ChainMatcher, ChainShape};
use crate::greedy::matcher::{DictionarySource, Matcher, Words};
use crate::greedy::quick::QuickMatcher;
use crate::greedy::search::{MatchQuery, SearchResult, Sweep};
use crate::math;
use crate::shared::capacity;

verus! {

/// Longest input, in bytes, that the quick matchers index through a small map.
pub const SMALL_INPUT_LIMIT: usize = 2048;

/// Shape of a bucketed match finder.
#[derive(Copy, Clone, Debug, PartialEq, Eq, Structural)]
pub struct BucketShape {
    /// Logarithm of the number of buckets.
    pub bucket_bits: u32,
    /// Logarithm of the slots per bucket.
    pub block_bits: u32,
    /// How many cached distances a search probes.
    pub last_distances: usize,
}

/// The match finder a set of parameters calls for.
#[derive(Copy, Clone, Debug, PartialEq, Eq, Structural)]
pub enum HasherPlan {
    /// One slot per bucket.
    H2,
    /// Two slots per bucket.
    H3,
    /// Four slots per bucket.
    H4,
    /// Four slots per bucket of a large table.
    H54,
    /// Forgetful chains.
    Chain(ChainShape),
    /// Buckets over four-byte hashes.
    H5(BucketShape),
    /// Buckets over eight-byte reads.
    H6(BucketShape),
}

/// The match finder a stream is using.
pub enum MatchFinder {
    /// Short-input storage with the hash and candidate order of `H2`.
    H2Small(QuickMatcher<65536, 0, 5, true, true>),
    /// Short-input storage with the hash and candidate order of `H3`.
    H3Small(QuickMatcher<65536, 1, 5, false, true>),
    /// Short-input storage with the hash and candidate order of `H4`.
    H4Small(QuickMatcher<131072, 2, 5, true, true>),
    /// Quality 2: one candidate slot per bucket, with a dictionary probe.
    H2(QuickMatcher<65536, 0, 5, true, false>),
    /// Quality 3.
    H3(QuickMatcher<65536, 1, 5, false, false>),
    /// Quality 4, small inputs.
    H4(QuickMatcher<131072, 2, 5, true, false>),
    /// Quality 4, large inputs.
    H54(QuickMatcher<1048576, 2, 7, false, false>),
    /// Qualities 5 to 8, small windows.
    H40(ChainMatcher<1, 16>),
    /// Quality 9, small windows.
    H42(ChainMatcher<512, 9>),
    /// Quality 5, ordinary inputs: fourteen bucket bits, sixteen slots.
    H5Q5(BucketMatcher<false, 16384, 16>),
    /// Quality 6, ordinary inputs: fourteen bucket bits, thirty-two slots.
    H5Q6(BucketMatcher<false, 16384, 32>),
    /// Quality 7, ordinary inputs: fifteen bucket bits, sixty-four slots.
    H5Q7(BucketMatcher<false, 32768, 64>),
    /// Quality 8, ordinary inputs: fifteen bucket bits, 128 slots.
    H5Q8(BucketMatcher<false, 32768, 128>),
    /// Quality 9, ordinary inputs: fifteen bucket bits, 256 slots.
    H5Q9(BucketMatcher<false, 32768, 256>),
    /// Quality 5, large inputs and wide windows.
    H6Q5(BucketMatcher<true, 32768, 16>),
    /// Quality 6, large inputs and wide windows.
    H6Q6(BucketMatcher<true, 32768, 32>),
    /// Quality 7, large inputs and wide windows.
    H6Q7(BucketMatcher<true, 32768, 64>),
    /// Quality 8, large inputs and wide windows.
    H6Q8(BucketMatcher<true, 32768, 128>),
    /// Quality 9, large inputs and wide windows.
    H6Q9(BucketMatcher<true, 32768, 256>),
}

/// Which match finder a stream is using.
#[derive(Copy, Clone, Debug, PartialEq, Eq, Structural)]
pub enum FinderKind {
    /// Short-input storage with the hash and candidate order of `H2`.
    H2Small,
    /// Short-input storage with the hash and candidate order of `H3`.
    H3Small,
    /// Short-input storage with the hash and candidate order of `H4`.
    H4Small,
    /// Quality 2: one candidate slot per bucket, with a dictionary probe.
    H2,
    /// Quality 3.
    H3,
    /// Quality 4, small inputs.
    H4,
    /// Quality 4, large inputs.
    H54,
    /// Qualities 5 to 8, small windows.
    H40,
    /// Quality 9, small windows.
    H42,
    /// Quality 5, ordinary inputs: fourteen bucket bits, sixteen slots.
    H5Q5,
    /// Quality 6, ordinary inputs: fourteen bucket bits, thirty-two slots.
    H5Q6,
    /// Quality 7, ordinary inputs: fifteen bucket bits, sixty-four slots.
    H5Q7,
    /// Quality 8, ordinary inputs: fifteen bucket bits, 128 slots.
    H5Q8,
    /// Quality 9, ordinary inputs: fifteen bucket bits, 256 slots.
    H5Q9,
    /// Quality 5, large inputs and wide windows.
    H6Q5,
    /// Quality 6, large inputs and wide windows.
    H6Q6,
    /// Quality 7, large inputs and wide windows.
    H6Q7,
    /// Quality 8, large inputs and wide windows.
    H6Q8,
    /// Quality 9, large inputs and wide windows.
    H6Q9,
}

/// The variant a bucket shape calls for: the depth picks it on its own.
pub open spec fn bucket_kind(hash64: bool, shape: BucketShape) -> FinderKind {
    if hash64 {
        if shape.block_bits <= 4 {
            FinderKind::H6Q5
        } else if shape.block_bits == 5 {
            FinderKind::H6Q6
        } else if shape.block_bits == 6 {
            FinderKind::H6Q7
        } else if shape.block_bits == 7 {
            FinderKind::H6Q8
        } else {
            FinderKind::H6Q9
        }
    } else {
        if shape.block_bits <= 4 {
            FinderKind::H5Q5
        } else if shape.block_bits == 5 {
            FinderKind::H5Q6
        } else if shape.block_bits == 6 {
            FinderKind::H5Q7
        } else if shape.block_bits == 7 {
            FinderKind::H5Q8
        } else {
            FinderKind::H5Q9
        }
    }
}

/// The variant a plan calls for when the input length is unknown.
pub open spec fn plan_kind(plan: HasherPlan) -> FinderKind {
    match plan {
        HasherPlan::H2 => FinderKind::H2,
        HasherPlan::H3 => FinderKind::H3,
        HasherPlan::H4 => FinderKind::H4,
        HasherPlan::H54 => FinderKind::H54,
        HasherPlan::Chain(shape) => if shape.num_banks == 1 {
            FinderKind::H40
        } else {
            FinderKind::H42
        },
        HasherPlan::H5(shape) => bucket_kind(false, shape),
        HasherPlan::H6(shape) => bucket_kind(true, shape),
    }
}

/// A plan an encoder makes: its chains have one of the two bank shapes.
pub open spec fn plan_ok(plan: HasherPlan) -> bool {
    plan matches HasherPlan::Chain(shape) ==> {
        &&& (shape.num_banks == 1 && shape.bank_bits == 16) || (shape.num_banks == 512
            && shape.bank_bits == 9)
        &&& 4 <= shape.last_distances <= 16
    }
}

/// Whether a plan's input is short enough for the small map.
pub open spec fn wants_small(plan: HasherPlan, size_hint: usize) -> bool {
    &&& 0 < size_hint <= SMALL_INPUT_LIMIT
    &&& plan == HasherPlan::H2 || plan == HasherPlan::H3 || plan == HasherPlan::H4
}

/// The variant a plan calls for at an expected input length.
pub open spec fn input_kind(plan: HasherPlan, size_hint: usize) -> FinderKind {
    if wants_small(plan, size_hint) {
        match plan {
            HasherPlan::H2 => FinderKind::H2Small,
            HasherPlan::H3 => FinderKind::H3Small,
            _ => FinderKind::H4Small,
        }
    } else {
        plan_kind(plan)
    }
}

/// The variant is one of the short-input ones.
pub open spec fn is_small(kind: FinderKind) -> bool {
    kind == FinderKind::H2Small || kind == FinderKind::H3Small || kind == FinderKind::H4Small
}

/// The table sizes the quick matchers use are powers of two.
proof fn lemma_table_sizes()
    ensures
        math::is_pow2(65536),
        math::is_pow2(131072),
        math::is_pow2(1048576),
        math::is_pow2(1),
        math::is_pow2(512),
{
    power2::lemma2_to64();
    assert(65536 == power2::pow2(16));
    assert(131072 == power2::pow2(17));
    assert(1048576 == power2::pow2(20));
    assert(1 == power2::pow2(0));
    assert(512 == power2::pow2(9));
}

impl MatchFinder {
    /// Which variant this is.
    pub open spec fn kind(&self) -> FinderKind {
        match self {
            MatchFinder::H2Small(_) => FinderKind::H2Small,
            MatchFinder::H3Small(_) => FinderKind::H3Small,
            MatchFinder::H4Small(_) => FinderKind::H4Small,
            MatchFinder::H2(_) => FinderKind::H2,
            MatchFinder::H3(_) => FinderKind::H3,
            MatchFinder::H4(_) => FinderKind::H4,
            MatchFinder::H54(_) => FinderKind::H54,
            MatchFinder::H40(_) => FinderKind::H40,
            MatchFinder::H42(_) => FinderKind::H42,
            MatchFinder::H5Q5(_) => FinderKind::H5Q5,
            MatchFinder::H5Q6(_) => FinderKind::H5Q6,
            MatchFinder::H5Q7(_) => FinderKind::H5Q7,
            MatchFinder::H5Q8(_) => FinderKind::H5Q8,
            MatchFinder::H5Q9(_) => FinderKind::H5Q9,
            MatchFinder::H6Q5(_) => FinderKind::H6Q5,
            MatchFinder::H6Q6(_) => FinderKind::H6Q6,
            MatchFinder::H6Q7(_) => FinderKind::H6Q7,
            MatchFinder::H6Q8(_) => FinderKind::H6Q8,
            MatchFinder::H6Q9(_) => FinderKind::H6Q9,
        }
    }

    /// The input the bucket matchers choose their layout for.
    pub open spec fn hint(&self) -> Option<usize> {
        match self {
            MatchFinder::H5Q5(matcher) => Some(matcher.size_hint),
            MatchFinder::H5Q6(matcher) => Some(matcher.size_hint),
            MatchFinder::H5Q7(matcher) => Some(matcher.size_hint),
            MatchFinder::H5Q8(matcher) => Some(matcher.size_hint),
            MatchFinder::H5Q9(matcher) => Some(matcher.size_hint),
            MatchFinder::H6Q5(matcher) => Some(matcher.size_hint),
            MatchFinder::H6Q6(matcher) => Some(matcher.size_hint),
            MatchFinder::H6Q7(matcher) => Some(matcher.size_hint),
            MatchFinder::H6Q8(matcher) => Some(matcher.size_hint),
            MatchFinder::H6Q9(matcher) => Some(matcher.size_hint),
            _ => None,
        }
    }

    /// Allocates the bucket matcher a shape calls for.
    pub fn bucket(hash64: bool, shape: BucketShape, size_hint: usize) -> (finder: Self)
        ensures
            finder.wf(),
            finder.kind() == bucket_kind(hash64, shape),
            finder.hint() == Some(size_hint),
    {
        if hash64 {
            if shape.block_bits <= 4 {
                MatchFinder::H6Q5(BucketMatcher::new(size_hint))
            } else if shape.block_bits == 5 {
                MatchFinder::H6Q6(BucketMatcher::new(size_hint))
            } else if shape.block_bits == 6 {
                MatchFinder::H6Q7(BucketMatcher::new(size_hint))
            } else if shape.block_bits == 7 {
                MatchFinder::H6Q8(BucketMatcher::new(size_hint))
            } else {
                MatchFinder::H6Q9(BucketMatcher::new(size_hint))
            }
        } else {
            if shape.block_bits <= 4 {
                MatchFinder::H5Q5(BucketMatcher::new(size_hint))
            } else if shape.block_bits == 5 {
                MatchFinder::H5Q6(BucketMatcher::new(size_hint))
            } else if shape.block_bits == 6 {
                MatchFinder::H5Q7(BucketMatcher::new(size_hint))
            } else if shape.block_bits == 7 {
                MatchFinder::H5Q8(BucketMatcher::new(size_hint))
            } else {
                MatchFinder::H5Q9(BucketMatcher::new(size_hint))
            }
        }
    }

    /// Allocates the match finder a plan calls for when the input length is
    /// unknown.
    pub fn for_plan(plan: HasherPlan) -> (finder: Self)
        requires
            plan_ok(plan),
        ensures
            finder.wf(),
            finder.kind() == plan_kind(plan),
            finder.hint() is Some ==> finder.hint() == Some(0usize),
    {
        proof {
            lemma_table_sizes();
        }
        match plan {
            HasherPlan::H2 => MatchFinder::H2(QuickMatcher::new()),
            HasherPlan::H3 => MatchFinder::H3(QuickMatcher::new()),
            HasherPlan::H4 => MatchFinder::H4(QuickMatcher::new()),
            HasherPlan::H54 => MatchFinder::H54(QuickMatcher::new()),
            HasherPlan::Chain(shape) => {
                if shape.num_banks == 1 {
                    MatchFinder::H40(ChainMatcher::new(shape))
                } else {
                    MatchFinder::H42(ChainMatcher::new(shape))
                }
            },
            HasherPlan::H5(shape) => Self::bucket(false, shape, 0),
            HasherPlan::H6(shape) => Self::bucket(true, shape, 0),
        }
    }

    /// Selects compact physical storage for an expected short input. Hashes,
    /// logical slots and match order are unchanged; the map grows if needed.
    pub fn for_input(plan: HasherPlan, size_hint: usize) -> (finder: Self)
        requires
            plan_ok(plan),
        ensures
            finder.wf(),
            finder.kind() == input_kind(plan, size_hint),
            finder.hint() is Some ==> finder.hint() == Some(size_hint),
    {
        if size_hint > 0 && size_hint <= SMALL_INPUT_LIMIT {
            proof {
                lemma_table_sizes();
            }
            match plan {
                HasherPlan::H2 => return MatchFinder::H2Small(QuickMatcher::new()),
                HasherPlan::H3 => return MatchFinder::H3Small(QuickMatcher::new()),
                HasherPlan::H4 => return MatchFinder::H4Small(QuickMatcher::new()),
                _ => {},
            }
        }
        match plan {
            HasherPlan::H5(shape) => Self::bucket(false, shape, size_hint),
            HasherPlan::H6(shape) => Self::bucket(true, shape, size_hint),
            _ => Self::for_plan(plan),
        }
    }

    /// Re-aims the finder at a stream of `size_hint` bytes for `plan`.
    ///
    /// Returns `false` when [`MatchFinder::for_input`] would pick the
    /// short-input storage against the full table or the other way round, in
    /// which case the caller has to rebuild; otherwise the bucket matchers take
    /// the hint for their next layout choice and the rest, whose shape the hint
    /// never reached, are unchanged.
    pub fn retarget(&mut self, plan: HasherPlan, size_hint: usize) -> (kept: bool)
        requires
            old(self).wf(),
        ensures
            final(self).wf(),
            kept == (wants_small(plan, size_hint) == is_small(old(self).kind())),
            final(self).kind() == old(self).kind(),
            !kept || old(self).hint() is None ==> *final(self) == *old(self),
            kept && old(self).hint() is Some ==> final(self).hint() == Some(size_hint),
    {
        let small_plan: bool = match plan {
            HasherPlan::H2 | HasherPlan::H3 | HasherPlan::H4 => true,
            _ => false,
        };
        let wanted: bool = size_hint > 0 && size_hint <= SMALL_INPUT_LIMIT && small_plan;
        let small: bool = match self {
            MatchFinder::H2Small(_) | MatchFinder::H3Small(_) | MatchFinder::H4Small(_) => true,
            _ => false,
        };
        if wanted != small {
            return false;
        }
        match self {
            MatchFinder::H5Q5(matcher) => matcher.retarget(size_hint),
            MatchFinder::H5Q6(matcher) => matcher.retarget(size_hint),
            MatchFinder::H5Q7(matcher) => matcher.retarget(size_hint),
            MatchFinder::H5Q8(matcher) => matcher.retarget(size_hint),
            MatchFinder::H5Q9(matcher) => matcher.retarget(size_hint),
            MatchFinder::H6Q5(matcher) => matcher.retarget(size_hint),
            MatchFinder::H6Q6(matcher) => matcher.retarget(size_hint),
            MatchFinder::H6Q7(matcher) => matcher.retarget(size_hint),
            MatchFinder::H6Q8(matcher) => matcher.retarget(size_hint),
            MatchFinder::H6Q9(matcher) => matcher.retarget(size_hint),
            _ => {},
        }
        true
    }

    /// What the items in use take.
    pub open spec fn least_bytes(&self) -> int {
        match self {
            MatchFinder::H2Small(matcher) => matcher.least_bytes(),
            MatchFinder::H3Small(matcher) => matcher.least_bytes(),
            MatchFinder::H4Small(matcher) => matcher.least_bytes(),
            MatchFinder::H2(matcher) => matcher.least_bytes(),
            MatchFinder::H3(matcher) => matcher.least_bytes(),
            MatchFinder::H4(matcher) => matcher.least_bytes(),
            MatchFinder::H54(matcher) => matcher.least_bytes(),
            MatchFinder::H40(matcher) => matcher.least_bytes(),
            MatchFinder::H42(matcher) => matcher.least_bytes(),
            MatchFinder::H5Q5(matcher) => matcher.least_bytes(),
            MatchFinder::H5Q6(matcher) => matcher.least_bytes(),
            MatchFinder::H5Q7(matcher) => matcher.least_bytes(),
            MatchFinder::H5Q8(matcher) => matcher.least_bytes(),
            MatchFinder::H5Q9(matcher) => matcher.least_bytes(),
            MatchFinder::H6Q5(matcher) => matcher.least_bytes(),
            MatchFinder::H6Q6(matcher) => matcher.least_bytes(),
            MatchFinder::H6Q7(matcher) => matcher.least_bytes(),
            MatchFinder::H6Q8(matcher) => matcher.least_bytes(),
            MatchFinder::H6Q9(matcher) => matcher.least_bytes(),
        }
    }

    /// Returns how many bytes the finder holds on to.
    pub fn retained_bytes(&self) -> (bytes: usize)
        ensures
            capacity::covers(bytes, self.least_bytes()),
    {
        match self {
            MatchFinder::H2Small(matcher) => matcher.retained_bytes(),
            MatchFinder::H3Small(matcher) => matcher.retained_bytes(),
            MatchFinder::H4Small(matcher) => matcher.retained_bytes(),
            MatchFinder::H2(matcher) => matcher.retained_bytes(),
            MatchFinder::H3(matcher) => matcher.retained_bytes(),
            MatchFinder::H4(matcher) => matcher.retained_bytes(),
            MatchFinder::H54(matcher) => matcher.retained_bytes(),
            MatchFinder::H40(matcher) => matcher.retained_bytes(),
            MatchFinder::H42(matcher) => matcher.retained_bytes(),
            MatchFinder::H5Q5(matcher) => matcher.retained_bytes(),
            MatchFinder::H5Q6(matcher) => matcher.retained_bytes(),
            MatchFinder::H5Q7(matcher) => matcher.retained_bytes(),
            MatchFinder::H5Q8(matcher) => matcher.retained_bytes(),
            MatchFinder::H5Q9(matcher) => matcher.retained_bytes(),
            MatchFinder::H6Q5(matcher) => matcher.retained_bytes(),
            MatchFinder::H6Q6(matcher) => matcher.retained_bytes(),
            MatchFinder::H6Q7(matcher) => matcher.retained_bytes(),
            MatchFinder::H6Q8(matcher) => matcher.retained_bytes(),
            MatchFinder::H6Q9(matcher) => matcher.retained_bytes(),
        }
    }

    /// Retargeting keeps a finder exactly when building one for the same plan
    /// and the new hint would pick the same variant.
    pub proof fn lemma_retarget_agrees(plan: HasherPlan, old_hint: usize, size_hint: usize)
        ensures
            (wants_small(plan, size_hint) == is_small(input_kind(plan, old_hint))) == (input_kind(
                plan,
                size_hint,
            ) == input_kind(plan, old_hint)),
    {
    }
}

impl Matcher for MatchFinder {
    open spec fn wf(&self) -> bool {
        match self {
            MatchFinder::H2Small(matcher) => matcher.wf(),
            MatchFinder::H3Small(matcher) => matcher.wf(),
            MatchFinder::H4Small(matcher) => matcher.wf(),
            MatchFinder::H2(matcher) => matcher.wf(),
            MatchFinder::H3(matcher) => matcher.wf(),
            MatchFinder::H4(matcher) => matcher.wf(),
            MatchFinder::H54(matcher) => matcher.wf(),
            MatchFinder::H40(matcher) => matcher.wf(),
            MatchFinder::H42(matcher) => matcher.wf(),
            MatchFinder::H5Q5(matcher) => matcher.wf(),
            MatchFinder::H5Q6(matcher) => matcher.wf(),
            MatchFinder::H5Q7(matcher) => matcher.wf(),
            MatchFinder::H5Q8(matcher) => matcher.wf(),
            MatchFinder::H5Q9(matcher) => matcher.wf(),
            MatchFinder::H6Q5(matcher) => matcher.wf(),
            MatchFinder::H6Q6(matcher) => matcher.wf(),
            MatchFinder::H6Q7(matcher) => matcher.wf(),
            MatchFinder::H6Q8(matcher) => matcher.wf(),
            MatchFinder::H6Q9(matcher) => matcher.wf(),
        }
    }

    open spec fn admits(&self, ix: int) -> bool {
        match self {
            MatchFinder::H2Small(matcher) => matcher.admits(ix),
            MatchFinder::H3Small(matcher) => matcher.admits(ix),
            MatchFinder::H4Small(matcher) => matcher.admits(ix),
            MatchFinder::H2(matcher) => matcher.admits(ix),
            MatchFinder::H3(matcher) => matcher.admits(ix),
            MatchFinder::H4(matcher) => matcher.admits(ix),
            MatchFinder::H54(matcher) => matcher.admits(ix),
            MatchFinder::H40(matcher) => matcher.admits(ix),
            MatchFinder::H42(matcher) => matcher.admits(ix),
            MatchFinder::H5Q5(matcher) => matcher.admits(ix),
            MatchFinder::H5Q6(matcher) => matcher.admits(ix),
            MatchFinder::H5Q7(matcher) => matcher.admits(ix),
            MatchFinder::H5Q8(matcher) => matcher.admits(ix),
            MatchFinder::H5Q9(matcher) => matcher.admits(ix),
            MatchFinder::H6Q5(matcher) => matcher.admits(ix),
            MatchFinder::H6Q6(matcher) => matcher.admits(ix),
            MatchFinder::H6Q7(matcher) => matcher.admits(ix),
            MatchFinder::H6Q8(matcher) => matcher.admits(ix),
            MatchFinder::H6Q9(matcher) => matcher.admits(ix),
        }
    }

    open spec fn answers(
        &self,
        words: Words,
        backend: BackendKind,
        query: &MatchQuery,
        from: SearchResult,
        to: SearchResult,
    ) -> bool {
        match self {
            MatchFinder::H2Small(matcher) => matcher.answers(words, backend, query, from, to),
            MatchFinder::H3Small(matcher) => matcher.answers(words, backend, query, from, to),
            MatchFinder::H4Small(matcher) => matcher.answers(words, backend, query, from, to),
            MatchFinder::H2(matcher) => matcher.answers(words, backend, query, from, to),
            MatchFinder::H3(matcher) => matcher.answers(words, backend, query, from, to),
            MatchFinder::H4(matcher) => matcher.answers(words, backend, query, from, to),
            MatchFinder::H54(matcher) => matcher.answers(words, backend, query, from, to),
            MatchFinder::H40(matcher) => matcher.answers(words, backend, query, from, to),
            MatchFinder::H42(matcher) => matcher.answers(words, backend, query, from, to),
            MatchFinder::H5Q5(matcher) => matcher.answers(words, backend, query, from, to),
            MatchFinder::H5Q6(matcher) => matcher.answers(words, backend, query, from, to),
            MatchFinder::H5Q7(matcher) => matcher.answers(words, backend, query, from, to),
            MatchFinder::H5Q8(matcher) => matcher.answers(words, backend, query, from, to),
            MatchFinder::H5Q9(matcher) => matcher.answers(words, backend, query, from, to),
            MatchFinder::H6Q5(matcher) => matcher.answers(words, backend, query, from, to),
            MatchFinder::H6Q6(matcher) => matcher.answers(words, backend, query, from, to),
            MatchFinder::H6Q7(matcher) => matcher.answers(words, backend, query, from, to),
            MatchFinder::H6Q8(matcher) => matcher.answers(words, backend, query, from, to),
            MatchFinder::H6Q9(matcher) => matcher.answers(words, backend, query, from, to),
        }
    }

    open spec fn hashed(&self) -> int {
        match self {
            MatchFinder::H2Small(matcher) => matcher.hashed(),
            MatchFinder::H3Small(matcher) => matcher.hashed(),
            MatchFinder::H4Small(matcher) => matcher.hashed(),
            MatchFinder::H2(matcher) => matcher.hashed(),
            MatchFinder::H3(matcher) => matcher.hashed(),
            MatchFinder::H4(matcher) => matcher.hashed(),
            MatchFinder::H54(matcher) => matcher.hashed(),
            MatchFinder::H40(matcher) => matcher.hashed(),
            MatchFinder::H42(matcher) => matcher.hashed(),
            MatchFinder::H5Q5(matcher) => matcher.hashed(),
            MatchFinder::H5Q6(matcher) => matcher.hashed(),
            MatchFinder::H5Q7(matcher) => matcher.hashed(),
            MatchFinder::H5Q8(matcher) => matcher.hashed(),
            MatchFinder::H5Q9(matcher) => matcher.hashed(),
            MatchFinder::H6Q5(matcher) => matcher.hashed(),
            MatchFinder::H6Q6(matcher) => matcher.hashed(),
            MatchFinder::H6Q7(matcher) => matcher.hashed(),
            MatchFinder::H6Q8(matcher) => matcher.hashed(),
            MatchFinder::H6Q9(matcher) => matcher.hashed(),
        }
    }

    open spec fn looks_ahead(&self) -> int {
        match self {
            MatchFinder::H2Small(matcher) => matcher.looks_ahead(),
            MatchFinder::H3Small(matcher) => matcher.looks_ahead(),
            MatchFinder::H4Small(matcher) => matcher.looks_ahead(),
            MatchFinder::H2(matcher) => matcher.looks_ahead(),
            MatchFinder::H3(matcher) => matcher.looks_ahead(),
            MatchFinder::H4(matcher) => matcher.looks_ahead(),
            MatchFinder::H54(matcher) => matcher.looks_ahead(),
            MatchFinder::H40(matcher) => matcher.looks_ahead(),
            MatchFinder::H42(matcher) => matcher.looks_ahead(),
            MatchFinder::H5Q5(matcher) => matcher.looks_ahead(),
            MatchFinder::H5Q6(matcher) => matcher.looks_ahead(),
            MatchFinder::H5Q7(matcher) => matcher.looks_ahead(),
            MatchFinder::H5Q8(matcher) => matcher.looks_ahead(),
            MatchFinder::H5Q9(matcher) => matcher.looks_ahead(),
            MatchFinder::H6Q5(matcher) => matcher.looks_ahead(),
            MatchFinder::H6Q6(matcher) => matcher.looks_ahead(),
            MatchFinder::H6Q7(matcher) => matcher.looks_ahead(),
            MatchFinder::H6Q8(matcher) => matcher.looks_ahead(),
            MatchFinder::H6Q9(matcher) => matcher.looks_ahead(),
        }
    }

    open spec fn probes(&self) -> int {
        match self {
            MatchFinder::H2Small(matcher) => matcher.probes(),
            MatchFinder::H3Small(matcher) => matcher.probes(),
            MatchFinder::H4Small(matcher) => matcher.probes(),
            MatchFinder::H2(matcher) => matcher.probes(),
            MatchFinder::H3(matcher) => matcher.probes(),
            MatchFinder::H4(matcher) => matcher.probes(),
            MatchFinder::H54(matcher) => matcher.probes(),
            MatchFinder::H40(matcher) => matcher.probes(),
            MatchFinder::H42(matcher) => matcher.probes(),
            MatchFinder::H5Q5(matcher) => matcher.probes(),
            MatchFinder::H5Q6(matcher) => matcher.probes(),
            MatchFinder::H5Q7(matcher) => matcher.probes(),
            MatchFinder::H5Q8(matcher) => matcher.probes(),
            MatchFinder::H5Q9(matcher) => matcher.probes(),
            MatchFinder::H6Q5(matcher) => matcher.probes(),
            MatchFinder::H6Q6(matcher) => matcher.probes(),
            MatchFinder::H6Q7(matcher) => matcher.probes(),
            MatchFinder::H6Q8(matcher) => matcher.probes(),
            MatchFinder::H6Q9(matcher) => matcher.probes(),
        }
    }

    open spec fn follows(&self, before: &Self, data: Seq<u8>, mask: usize, ix: int) -> bool {
        match (self, before) {
            (MatchFinder::H2Small(matcher), MatchFinder::H2Small(earlier)) => matcher.follows(
                earlier,
                data,
                mask,
                ix,
            ),
            (MatchFinder::H3Small(matcher), MatchFinder::H3Small(earlier)) => matcher.follows(
                earlier,
                data,
                mask,
                ix,
            ),
            (MatchFinder::H4Small(matcher), MatchFinder::H4Small(earlier)) => matcher.follows(
                earlier,
                data,
                mask,
                ix,
            ),
            (MatchFinder::H2(matcher), MatchFinder::H2(earlier)) => matcher.follows(
                earlier,
                data,
                mask,
                ix,
            ),
            (MatchFinder::H3(matcher), MatchFinder::H3(earlier)) => matcher.follows(
                earlier,
                data,
                mask,
                ix,
            ),
            (MatchFinder::H4(matcher), MatchFinder::H4(earlier)) => matcher.follows(
                earlier,
                data,
                mask,
                ix,
            ),
            (MatchFinder::H54(matcher), MatchFinder::H54(earlier)) => matcher.follows(
                earlier,
                data,
                mask,
                ix,
            ),
            (MatchFinder::H40(matcher), MatchFinder::H40(earlier)) => matcher.follows(
                earlier,
                data,
                mask,
                ix,
            ),
            (MatchFinder::H42(matcher), MatchFinder::H42(earlier)) => matcher.follows(
                earlier,
                data,
                mask,
                ix,
            ),
            (MatchFinder::H5Q5(matcher), MatchFinder::H5Q5(earlier)) => matcher.follows(
                earlier,
                data,
                mask,
                ix,
            ),
            (MatchFinder::H5Q6(matcher), MatchFinder::H5Q6(earlier)) => matcher.follows(
                earlier,
                data,
                mask,
                ix,
            ),
            (MatchFinder::H5Q7(matcher), MatchFinder::H5Q7(earlier)) => matcher.follows(
                earlier,
                data,
                mask,
                ix,
            ),
            (MatchFinder::H5Q8(matcher), MatchFinder::H5Q8(earlier)) => matcher.follows(
                earlier,
                data,
                mask,
                ix,
            ),
            (MatchFinder::H5Q9(matcher), MatchFinder::H5Q9(earlier)) => matcher.follows(
                earlier,
                data,
                mask,
                ix,
            ),
            (MatchFinder::H6Q5(matcher), MatchFinder::H6Q5(earlier)) => matcher.follows(
                earlier,
                data,
                mask,
                ix,
            ),
            (MatchFinder::H6Q6(matcher), MatchFinder::H6Q6(earlier)) => matcher.follows(
                earlier,
                data,
                mask,
                ix,
            ),
            (MatchFinder::H6Q7(matcher), MatchFinder::H6Q7(earlier)) => matcher.follows(
                earlier,
                data,
                mask,
                ix,
            ),
            (MatchFinder::H6Q8(matcher), MatchFinder::H6Q8(earlier)) => matcher.follows(
                earlier,
                data,
                mask,
                ix,
            ),
            (MatchFinder::H6Q9(matcher), MatchFinder::H6Q9(earlier)) => matcher.follows(
                earlier,
                data,
                mask,
                ix,
            ),
            _ => false,
        }
    }

    fn hash_type_length(&self) -> (n: usize) {
        match self {
            MatchFinder::H2Small(matcher) => matcher.hash_type_length(),
            MatchFinder::H3Small(matcher) => matcher.hash_type_length(),
            MatchFinder::H4Small(matcher) => matcher.hash_type_length(),
            MatchFinder::H2(matcher) => matcher.hash_type_length(),
            MatchFinder::H3(matcher) => matcher.hash_type_length(),
            MatchFinder::H4(matcher) => matcher.hash_type_length(),
            MatchFinder::H54(matcher) => matcher.hash_type_length(),
            MatchFinder::H40(matcher) => matcher.hash_type_length(),
            MatchFinder::H42(matcher) => matcher.hash_type_length(),
            MatchFinder::H5Q5(matcher) => matcher.hash_type_length(),
            MatchFinder::H5Q6(matcher) => matcher.hash_type_length(),
            MatchFinder::H5Q7(matcher) => matcher.hash_type_length(),
            MatchFinder::H5Q8(matcher) => matcher.hash_type_length(),
            MatchFinder::H5Q9(matcher) => matcher.hash_type_length(),
            MatchFinder::H6Q5(matcher) => matcher.hash_type_length(),
            MatchFinder::H6Q6(matcher) => matcher.hash_type_length(),
            MatchFinder::H6Q7(matcher) => matcher.hash_type_length(),
            MatchFinder::H6Q8(matcher) => matcher.hash_type_length(),
            MatchFinder::H6Q9(matcher) => matcher.hash_type_length(),
        }
    }

    fn store_lookahead(&self) -> (n: usize) {
        match self {
            MatchFinder::H2Small(matcher) => matcher.store_lookahead(),
            MatchFinder::H3Small(matcher) => matcher.store_lookahead(),
            MatchFinder::H4Small(matcher) => matcher.store_lookahead(),
            MatchFinder::H2(matcher) => matcher.store_lookahead(),
            MatchFinder::H3(matcher) => matcher.store_lookahead(),
            MatchFinder::H4(matcher) => matcher.store_lookahead(),
            MatchFinder::H54(matcher) => matcher.store_lookahead(),
            MatchFinder::H40(matcher) => matcher.store_lookahead(),
            MatchFinder::H42(matcher) => matcher.store_lookahead(),
            MatchFinder::H5Q5(matcher) => matcher.store_lookahead(),
            MatchFinder::H5Q6(matcher) => matcher.store_lookahead(),
            MatchFinder::H5Q7(matcher) => matcher.store_lookahead(),
            MatchFinder::H5Q8(matcher) => matcher.store_lookahead(),
            MatchFinder::H5Q9(matcher) => matcher.store_lookahead(),
            MatchFinder::H6Q5(matcher) => matcher.store_lookahead(),
            MatchFinder::H6Q6(matcher) => matcher.store_lookahead(),
            MatchFinder::H6Q7(matcher) => matcher.store_lookahead(),
            MatchFinder::H6Q8(matcher) => matcher.store_lookahead(),
            MatchFinder::H6Q9(matcher) => matcher.store_lookahead(),
        }
    }

    fn last_distances_to_check(&self) -> (n: usize) {
        match self {
            MatchFinder::H2Small(matcher) => matcher.last_distances_to_check(),
            MatchFinder::H3Small(matcher) => matcher.last_distances_to_check(),
            MatchFinder::H4Small(matcher) => matcher.last_distances_to_check(),
            MatchFinder::H2(matcher) => matcher.last_distances_to_check(),
            MatchFinder::H3(matcher) => matcher.last_distances_to_check(),
            MatchFinder::H4(matcher) => matcher.last_distances_to_check(),
            MatchFinder::H54(matcher) => matcher.last_distances_to_check(),
            MatchFinder::H40(matcher) => matcher.last_distances_to_check(),
            MatchFinder::H42(matcher) => matcher.last_distances_to_check(),
            MatchFinder::H5Q5(matcher) => matcher.last_distances_to_check(),
            MatchFinder::H5Q6(matcher) => matcher.last_distances_to_check(),
            MatchFinder::H5Q7(matcher) => matcher.last_distances_to_check(),
            MatchFinder::H5Q8(matcher) => matcher.last_distances_to_check(),
            MatchFinder::H5Q9(matcher) => matcher.last_distances_to_check(),
            MatchFinder::H6Q5(matcher) => matcher.last_distances_to_check(),
            MatchFinder::H6Q6(matcher) => matcher.last_distances_to_check(),
            MatchFinder::H6Q7(matcher) => matcher.last_distances_to_check(),
            MatchFinder::H6Q8(matcher) => matcher.last_distances_to_check(),
            MatchFinder::H6Q9(matcher) => matcher.last_distances_to_check(),
        }
    }

    fn prepare(&mut self, one_shot: bool, input_size: usize, data: &[u8], clear: bool) -> (sweep: Sweep)
        ensures
            final(self).kind() == old(self).kind(),
            final(self).hint() == old(self).hint(),
            old(self).hint() is Some <==> sweep == Sweep::SelfCleaning,
    {
        match self {
            MatchFinder::H2Small(matcher) => matcher.prepare(one_shot, input_size, data, clear),
            MatchFinder::H3Small(matcher) => matcher.prepare(one_shot, input_size, data, clear),
            MatchFinder::H4Small(matcher) => matcher.prepare(one_shot, input_size, data, clear),
            MatchFinder::H2(matcher) => matcher.prepare(one_shot, input_size, data, clear),
            MatchFinder::H3(matcher) => matcher.prepare(one_shot, input_size, data, clear),
            MatchFinder::H4(matcher) => matcher.prepare(one_shot, input_size, data, clear),
            MatchFinder::H54(matcher) => matcher.prepare(one_shot, input_size, data, clear),
            MatchFinder::H40(matcher) => matcher.prepare(one_shot, input_size, data, clear),
            MatchFinder::H42(matcher) => matcher.prepare(one_shot, input_size, data, clear),
            MatchFinder::H5Q5(matcher) => matcher.prepare(one_shot, input_size, data, clear),
            MatchFinder::H5Q6(matcher) => matcher.prepare(one_shot, input_size, data, clear),
            MatchFinder::H5Q7(matcher) => matcher.prepare(one_shot, input_size, data, clear),
            MatchFinder::H5Q8(matcher) => matcher.prepare(one_shot, input_size, data, clear),
            MatchFinder::H5Q9(matcher) => matcher.prepare(one_shot, input_size, data, clear),
            MatchFinder::H6Q5(matcher) => matcher.prepare(one_shot, input_size, data, clear),
            MatchFinder::H6Q6(matcher) => matcher.prepare(one_shot, input_size, data, clear),
            MatchFinder::H6Q7(matcher) => matcher.prepare(one_shot, input_size, data, clear),
            MatchFinder::H6Q8(matcher) => matcher.prepare(one_shot, input_size, data, clear),
            MatchFinder::H6Q9(matcher) => matcher.prepare(one_shot, input_size, data, clear),
        }
    }

    fn store(&mut self, data: &[u8], mask: usize, ix: usize)
        ensures
            final(self).kind() == old(self).kind(),
    {
        match self {
            MatchFinder::H2Small(matcher) => matcher.store(data, mask, ix),
            MatchFinder::H3Small(matcher) => matcher.store(data, mask, ix),
            MatchFinder::H4Small(matcher) => matcher.store(data, mask, ix),
            MatchFinder::H2(matcher) => matcher.store(data, mask, ix),
            MatchFinder::H3(matcher) => matcher.store(data, mask, ix),
            MatchFinder::H4(matcher) => matcher.store(data, mask, ix),
            MatchFinder::H54(matcher) => matcher.store(data, mask, ix),
            MatchFinder::H40(matcher) => matcher.store(data, mask, ix),
            MatchFinder::H42(matcher) => matcher.store(data, mask, ix),
            MatchFinder::H5Q5(matcher) => matcher.store(data, mask, ix),
            MatchFinder::H5Q6(matcher) => matcher.store(data, mask, ix),
            MatchFinder::H5Q7(matcher) => matcher.store(data, mask, ix),
            MatchFinder::H5Q8(matcher) => matcher.store(data, mask, ix),
            MatchFinder::H5Q9(matcher) => matcher.store(data, mask, ix),
            MatchFinder::H6Q5(matcher) => matcher.store(data, mask, ix),
            MatchFinder::H6Q6(matcher) => matcher.store(data, mask, ix),
            MatchFinder::H6Q7(matcher) => matcher.store(data, mask, ix),
            MatchFinder::H6Q8(matcher) => matcher.store(data, mask, ix),
            MatchFinder::H6Q9(matcher) => matcher.store(data, mask, ix),
        }
    }

    fn find_longest_match<D: DictionarySource>(
        &mut self,
        backend: Backend,
        dictionary: &mut D,
        query: &MatchQuery,
        out: &mut SearchResult,
    )
        ensures
            final(self).kind() == old(self).kind(),
    {
        match self {
            MatchFinder::H2Small(matcher) => matcher.find_longest_match(
                backend,
                dictionary,
                query,
                out,
            ),
            MatchFinder::H3Small(matcher) => matcher.find_longest_match(
                backend,
                dictionary,
                query,
                out,
            ),
            MatchFinder::H4Small(matcher) => matcher.find_longest_match(
                backend,
                dictionary,
                query,
                out,
            ),
            MatchFinder::H2(matcher) => matcher.find_longest_match(
                backend,
                dictionary,
                query,
                out,
            ),
            MatchFinder::H3(matcher) => matcher.find_longest_match(
                backend,
                dictionary,
                query,
                out,
            ),
            MatchFinder::H4(matcher) => matcher.find_longest_match(
                backend,
                dictionary,
                query,
                out,
            ),
            MatchFinder::H54(matcher) => matcher.find_longest_match(
                backend,
                dictionary,
                query,
                out,
            ),
            MatchFinder::H40(matcher) => matcher.find_longest_match(
                backend,
                dictionary,
                query,
                out,
            ),
            MatchFinder::H42(matcher) => matcher.find_longest_match(
                backend,
                dictionary,
                query,
                out,
            ),
            MatchFinder::H5Q5(matcher) => matcher.find_longest_match(
                backend,
                dictionary,
                query,
                out,
            ),
            MatchFinder::H5Q6(matcher) => matcher.find_longest_match(
                backend,
                dictionary,
                query,
                out,
            ),
            MatchFinder::H5Q7(matcher) => matcher.find_longest_match(
                backend,
                dictionary,
                query,
                out,
            ),
            MatchFinder::H5Q8(matcher) => matcher.find_longest_match(
                backend,
                dictionary,
                query,
                out,
            ),
            MatchFinder::H5Q9(matcher) => matcher.find_longest_match(
                backend,
                dictionary,
                query,
                out,
            ),
            MatchFinder::H6Q5(matcher) => matcher.find_longest_match(
                backend,
                dictionary,
                query,
                out,
            ),
            MatchFinder::H6Q6(matcher) => matcher.find_longest_match(
                backend,
                dictionary,
                query,
                out,
            ),
            MatchFinder::H6Q7(matcher) => matcher.find_longest_match(
                backend,
                dictionary,
                query,
                out,
            ),
            MatchFinder::H6Q8(matcher) => matcher.find_longest_match(
                backend,
                dictionary,
                query,
                out,
            ),
            MatchFinder::H6Q9(matcher) => matcher.find_longest_match(
                backend,
                dictionary,
                query,
                out,
            ),
        }
    }
}

} // verus!
