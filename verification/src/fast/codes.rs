//! Statistics the fast prefix codes are built from, and their symbol orders.
use vstd::prelude::*;

use crate::fast::constants::{
    LITERAL_SAMPLE_RATE, NUM_COMMAND_SYMBOLS, NUM_LITERAL_SYMBOLS,
};
use crate::math;
use crate::shared::command;
use crate::shared::histogram;
use crate::shared::histogram::Histogram;

verus! {

/// Inputs shorter than this are counted byte by byte.
pub const SAMPLING_THRESHOLD: usize = 32768;

/// The bytes a sampling stride picks.
pub open spec fn sampled(data: Seq<u8>, stride: int) -> Seq<u8> {
    Seq::new(((data.len() + stride - 1) / stride) as nat, |i: int| data[i * stride])
}

/// Counts every `stride`-th byte.
pub fn accumulate_sampled(data: &[u8], stride: usize) -> (counts: Histogram)
    requires
        1 <= stride <= 0xFFFF,
        data@.len() <= 0x4000_0000,
    ensures
        counts.wf(),
        counts@.len() == NUM_LITERAL_SYMBOLS,
        counts.total == sampled(data@, stride as int).len(),
        forall|s: int|
            0 <= s < 256 ==> #[trigger] counts@[s] == math::tally(
                sampled(data@, stride as int),
                |b: u8| b == s,
            ),
{
    let mut counts: Histogram = Histogram::new(NUM_LITERAL_SYMBOLS);
    let mut at: usize = 0;
    let ghost picks = sampled(data@, stride as int);
    let ghost mut taken: int = 0;
    proof {
        assert(picks.take(0) =~= Seq::<u8>::empty());
        vstd::arithmetic::div_mod::lemma_basic_div(stride - 1, stride as int);
    }
    while at < data.len()
        invariant
            1 <= stride <= 0xFFFF,
            data@.len() <= 0x4000_0000,
            picks == sampled(data@, stride as int),
            0 <= taken <= picks.len(),
            at == taken * stride,
            counts.wf(),
            counts@.len() == 256,
            counts.total == taken,
            at < data@.len() + stride,
            picks.len() == (data@.len() + stride - 1) / stride as int,
            forall|s: int|
                0 <= s < 256 ==> #[trigger] counts@[s] == math::tally(
                    picks.take(taken),
                    |b: u8| b == s,
                ),
            at >= data@.len() ==> taken == picks.len(),
        decreases data@.len() + stride - at,
    {
        let ghost n = data@.len() as int;
        proof {
            assert(taken < picks.len() && taken < 0x4000_0000) by (nonlinear_arith)
                requires
                    taken * stride < n,
                    stride >= 1,
                    taken >= 0,
                    n <= 0x4000_0000,
                    picks.len() == (n + stride - 1) / stride as int,
            ;
        }
        let ghost before = counts@;
        let byte: usize = data[at] as usize;
        counts.add(byte);
        proof {
            assert(picks.take(taken + 1).drop_last() =~= picks.take(taken));
            assert(picks[taken] == data@[at as int]);
            assert forall|s: int| 0 <= s < 256 implies #[trigger] counts@[s] == math::tally(
                picks.take(taken + 1),
                |b: u8| b == s,
            ) by {
                assert(before[s] == math::tally(picks.take(taken), |b: u8| b == s));
            }
            assert((taken + 1) * stride == taken * stride + stride) by (nonlinear_arith);
            taken = taken + 1;
        }
        at += stride;
        proof {
            if at >= data@.len() {
                assert(taken >= picks.len()) by (nonlinear_arith)
                    requires
                        taken * stride >= n,
                        stride >= 1,
                        picks.len() == (n + stride - 1) / stride as int,
                ;
            }
        }
    }
    proof {
        assert(picks.take(taken) =~= picks);
    }
    counts
}

/// How much a sampled count is raised: its first eleven samples weigh triple.
pub open spec fn weighed(count: int, extra: int) -> int {
    count + extra + 2 * if count < 11 {
        count
    } else {
        11
    }
}

/// Counts a block's literals the way its prefix code weighs them.
///
/// The first eleven samples of a symbol weigh triple to account for the
/// balancing effect of the copies; in a long block, where only a sample is
/// counted, every symbol gets one more so that none is left without a code.
pub fn literal_weights(block: &[u8]) -> (weights: Histogram)
    requires
        block@.len() <= 0x1000_0000,
    ensures
        weights.wf(),
        weights@.len() == NUM_LITERAL_SYMBOLS,
        forall|s: int|
            0 <= s < 256 ==> #[trigger] weights@[s] == if block@.len() < SAMPLING_THRESHOLD {
                weighed(math::tally(sampled(block@, 1), |b: u8| b == s) as int, 0)
            } else {
                weighed(
                    math::tally(sampled(block@, LITERAL_SAMPLE_RATE as int), |b: u8| b == s) as int,
                    1,
                )
            },
{
    let short: bool = block.len() < SAMPLING_THRESHOLD;
    let stride: usize = if short {
        1
    } else {
        LITERAL_SAMPLE_RATE
    };
    let extra: u32 = if short {
        0
    } else {
        1
    };
    let mut weights: Histogram = accumulate_sampled(block, stride);
    let ghost counts = weights@;
    proof {
        histogram::lemma_sum_bound(counts);
        assert(weights.total <= block@.len() + 1) by {
            assert((block@.len() + stride - 1) / stride as int <= block@.len() + 1) by (nonlinear_arith)
                requires
                    stride >= 1,
            ;
        }
    }
    let mut i: usize = 0;
    while i < NUM_LITERAL_SYMBOLS
        invariant
            i <= 256,
            extra <= 1,
            weights.wf(),
            weights@.len() == 256,
            counts.len() == 256,
            weights.total <= 0x1000_0001 + 23 * i,
            forall|s: int| 0 <= s < 256 ==> #[trigger] counts[s] <= 0x1000_0001,
            forall|s: int|
                0 <= s < 256 ==> #[trigger] weights@[s] == if s < i {
                    weighed(counts[s] as int, extra as int)
                } else {
                    counts[s] as int
                },
        decreases 256 - i,
    {
        let count: u32 = weights.data[i];
        assert(counts[i as int] <= 0x1000_0001);
        let adjust: u32 = extra + 2 * if count < 11 {
            count
        } else {
            11
        };
        proof {
            histogram::lemma_sum_update(weights@, i as int, (count + adjust) as u32);
        }
        let ghost before = weights@;
        weights.data.set(i, count + adjust);
        weights.total = weights.total + adjust as usize;
        i += 1;
    }
    weights
}

/// The bits all weighted symbols take with a set of code lengths.
pub open spec fn weighted_bits(weights: Seq<u32>, depths: Seq<u8>) -> int
    decreases weights.len(),
{
    if weights.len() == 0 {
        0
    } else {
        weighted_bits(weights.drop_last(), depths) + weights.last() * depths[weights.len() - 1]
    }
}

/// Estimates what a literal costs with a prefix code, in millibytes.
pub fn literal_ratio(weights: &Histogram, depths: &[u8]) -> (ratio: u64)
    requires
        weights.wf(),
        weights.total > 0,
        weights@.len() == NUM_LITERAL_SYMBOLS,
        depths@.len() == NUM_LITERAL_SYMBOLS,
    ensures
        ratio == weighted_bits(weights@, depths@) * 125 / weights.total as int,
{
    let mut total: u64 = 0;
    let mut i: usize = 0;
    proof {
        histogram::lemma_sum_bound(weights@);
        assert(weights@.take(0) =~= Seq::<u32>::empty());
    }
    while i < NUM_LITERAL_SYMBOLS
        invariant
            i <= 256,
            weights@.len() == 256,
            depths@.len() == 256,
            total == weighted_bits(weights@.take(i as int), depths@),
            total <= i * 0x100_0000_0000,
        decreases 256 - i,
    {
        let count: u64 = weights.data[i] as u64;
        let depth: u64 = depths[i] as u64;
        proof {
            assert(count * depth <= 0x100_0000_0000) by (nonlinear_arith)
                requires
                    0 <= count <= 0xFFFF_FFFF,
                    0 <= depth <= 0xFF,
            ;
            assert(weights@.take(i + 1).drop_last() =~= weights@.take(i as int));
        }
        total = total + count * depth;
        i += 1;
    }
    proof {
        assert(weights@.take(256) =~= weights@);
    }
    total * 125 / weights.total as u64
}

/// Where the fast path's command symbol sits in the order its code is built in.
pub open spec fn command_place(symbol: int) -> int {
    if symbol < 24 {
        symbol
    } else if symbol < 32 {
        symbol + 8
    } else if symbol < 40 {
        symbol + 16
    } else if symbol < 48 {
        symbol - 16
    } else if symbol < 56 {
        symbol - 8
    } else {
        symbol
    }
}

/// Puts command symbols into the order their code is built in.
pub fn order_command_depths(depths: &[u8]) -> (ordered: Vec<u8>)
    requires
        depths@.len() >= 64,
    ensures
        ordered@.len() == 64,
        forall|s: int|
            0 <= s < 64 ==> ordered@[command_place(s)] == #[trigger] depths@[s],
{
    let mut ordered: Vec<u8> = vec![0u8; 64];
    let mut s: usize = 0;
    while s < 64
        invariant
            s <= 64,
            depths@.len() >= 64,
            ordered@.len() == 64,
            forall|t: int| 0 <= t < s ==> ordered@[command_place(t)] == #[trigger] depths@[t],
        decreases 64 - s,
    {
        let place: usize = if s < 24 {
            s
        } else if s < 32 {
            s + 8
        } else if s < 40 {
            s + 16
        } else if s < 48 {
            s - 16
        } else if s < 56 {
            s - 8
        } else {
            s
        };
        ordered.set(place, depths[s]);
        s += 1;
    }
    ordered
}

/// Takes codes built in that order back to the command symbols.
pub fn restore_command_bits(ordered: &[u16]) -> (bits: Vec<u16>)
    requires
        ordered@.len() == 64,
    ensures
        bits@.len() == 64,
        forall|s: int| 0 <= s < 64 ==> #[trigger] bits@[s] == ordered@[command_place(s)],
{
    let mut bits: Vec<u16> = Vec::new();
    let mut s: usize = 0;
    while s < 64
        invariant
            s <= 64,
            ordered@.len() == 64,
            bits@.len() == s,
            forall|t: int| 0 <= t < s ==> #[trigger] bits@[t] == ordered@[command_place(t)],
        decreases 64 - s,
    {
        let place: usize = if s < 24 {
            s
        } else if s < 32 {
            s + 8
        } else if s < 40 {
            s + 16
        } else if s < 48 {
            s - 16
        } else if s < 56 {
            s - 8
        } else {
            s
        };
        bits.push(ordered[place]);
        s += 1;
    }
    bits
}

/// The full alphabet's symbol of a fast command symbol.
pub open spec fn full_command_symbol(symbol: int) -> int {
    if symbol < 8 {
        symbol
    } else if symbol < 16 {
        64 + symbol - 8
    } else if symbol < 24 {
        128 + symbol - 16
    } else if symbol < 32 {
        192 + symbol - 24
    } else if symbol < 40 {
        384 + symbol - 32
    } else if symbol < 48 {
        128 + 8 * (symbol - 40)
    } else if symbol < 56 {
        256 + 8 * (symbol - 48)
    } else {
        448 + 8 * (symbol - 56)
    }
}

/// The last of the fast symbols that share a full symbol decides its depth.
pub open spec fn scattered(depths: Seq<u8>, count: int, full: int) -> u8
    decreases count,
{
    if count <= 0 {
        0
    } else if full_command_symbol(count - 1) == full {
        depths[count - 1]
    } else {
        scattered(depths, count - 1, full)
    }
}

/// Scatters the fast command depths over the full alphabet.
pub fn scatter_command_depths(depths: &[u8]) -> (full: Vec<u8>)
    requires
        depths@.len() >= 64,
    ensures
        full@.len() == NUM_COMMAND_SYMBOLS,
        forall|i: int|
            0 <= i < NUM_COMMAND_SYMBOLS ==> #[trigger] full@[i] == scattered(depths@, 64, i),
{
    let mut full: Vec<u8> = vec![0u8; NUM_COMMAND_SYMBOLS];
    let mut s: usize = 0;
    while s < 64
        invariant
            s <= 64,
            depths@.len() >= 64,
            full@.len() == NUM_COMMAND_SYMBOLS,
            forall|i: int|
                0 <= i < NUM_COMMAND_SYMBOLS ==> #[trigger] full@[i] == scattered(
                    depths@,
                    s as int,
                    i,
                ),
        decreases 64 - s,
    {
        let symbol: usize = if s < 8 {
            s
        } else if s < 16 {
            64 + s - 8
        } else if s < 24 {
            128 + s - 16
        } else if s < 32 {
            192 + s - 24
        } else if s < 40 {
            384 + s - 32
        } else if s < 48 {
            128 + 8 * (s - 40)
        } else if s < 56 {
            256 + 8 * (s - 48)
        } else {
            448 + 8 * (s - 56)
        };
        full.set(symbol, depths[s]);
        s += 1;
    }
    full
}

/// What the fast symbols stand for: the first sixteen a copy code of their own number that
/// repeats the last distance, the next twenty-four a copy code with a distance, and the
/// last twenty-four an insert code, each beside the lowest code of the other kind.
pub proof fn lemma_full_symbol_is_command(symbol: int)
    requires
        0 <= symbol < 64,
    ensures
        full_command_symbol(symbol) == if symbol < 16 {
            command::combined(0, symbol, true)
        } else if symbol < 40 {
            command::combined(0, symbol - 16, false)
        } else {
            command::combined(symbol - 40, 0, false)
        },
{
}

/// The order codes are built in is that of the full alphabet: a symbol in an earlier block
/// of sixty-four comes first, and inside a block the fast symbols keep their order. No two
/// share a place.
pub proof fn lemma_order_is_that_of_commands(left: int, right: int)
    requires
        0 <= left < 64,
        0 <= right < 64,
    ensures
        0 <= command_place(left) < 64,
        full_command_symbol(left) / 64 < full_command_symbol(right) / 64 ==> command_place(left)
            < command_place(right),
        full_command_symbol(left) / 64 == full_command_symbol(right) / 64 && left < right
            ==> command_place(left) < command_place(right),
        left != right ==> command_place(left) != command_place(right),
{
}

/// Each of the first eleven samples of a symbol weighs three, every further one weighs one,
/// and a symbol without samples only what all get.
pub proof fn lemma_sample_weights(count: int, extra: int)
    requires
        0 <= count,
    ensures
        weighed(0, extra) == extra,
        weighed(count + 1, extra) == weighed(count, extra) + if count < 11 {
            3int
        } else {
            1
        },
{
}

} // verus!
