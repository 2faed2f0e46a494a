//! Partitioning a symbol stream into typed blocks with the whole stream in view.
//!
//! A handful of entropy codes is seeded from pseudo-random samples and refined,
//! every symbol is assigned the code that suits it, and the resulting blocks are
//! clustered down to the number of types the format allows. Which code suits a
//! symbol and which clusters to merge is a matter of cost, and costs come from
//! the caller: whatever they are, the partition that comes out is well formed.
use vstd::prelude::*;

use crate::greedy::backward_references;
use crate::greedy::backward_references::Command;
use crate::greedy::search;
use crate::greedy::tables::{COPY_BASE, INS_BASE};
use crate::hq::params::HqParams;
use crate::hq::pricing;
use crate::hq::runs;
use crate::math;
use crate::shared::block_split::{BlockSplit, MAX_NUMBER_OF_BLOCK_TYPES};
use crate::shared::command;
use crate::shared::command::{
    combine_length_codes, copy_length_code, insert_length_code, prefix_encode_copy_distance,
};
use crate::shared::distance::DistanceParams;
use crate::shared::histogram;
use crate::shared::histogram::Histogram;

verus! {

/// Most symbols a stream may have.
pub const MAX_STREAM: usize = 0x1000_0000;

/// Most histograms a stream is seeded with.
pub const MAX_SEEDED_HISTOGRAMS: usize = 100;

/// Shortest stream that is worth splitting at all.
pub const MIN_LENGTH_FOR_BLOCK_SPLITTING: usize = 128;

/// Refinement passes per unit of stream length.
pub const ITER_MUL_FOR_REFINING: usize = 2;

/// Refinement passes every stream gets.
pub const MIN_ITERS_FOR_REFINING: usize = 100;

/// Blocks clustered together in one batch.
pub const HISTOGRAMS_PER_BATCH: usize = 64;

/// What coding and switching cost, and how costs compare.
///
/// Costs are fractions of bits, so they are kept in a type of their own. They answer
/// alike whenever they are asked alike, and the partition that comes out is well
/// formed whatever the answers are.
pub trait SplitCosts: Sized {
    /// A cost.
    type Price: Copy;

    /// The answer of [`SplitCosts::zero`].
    open spec fn zero_of(&self) -> Self::Price {
        arbitrary()
    }

    /// No cost at all.
    fn zero(&self) -> (price: Self::Price)
        ensures
            price == self.zero_of(),
    ;

    /// The answer of [`SplitCosts::highest`].
    open spec fn highest_of(&self) -> Self::Price {
        arbitrary()
    }

    /// More than anything costs.
    fn highest(&self) -> (price: Self::Price)
        ensures
            price == self.highest_of(),
    ;

    /// The answer of [`SplitCosts::plus`].
    open spec fn plus_of(&self, left: Self::Price, right: Self::Price) -> Self::Price {
        arbitrary()
    }

    /// One cost on top of another.
    fn plus(&self, left: Self::Price, right: Self::Price) -> (price: Self::Price)
        ensures
            price == self.plus_of(left, right),
    ;

    /// The answer of [`SplitCosts::minus`].
    open spec fn minus_of(&self, left: Self::Price, right: Self::Price) -> Self::Price {
        arbitrary()
    }

    /// One cost less another.
    fn minus(&self, left: Self::Price, right: Self::Price) -> (price: Self::Price)
        ensures
            price == self.minus_of(left, right),
    ;

    /// The answer of [`SplitCosts::below`].
    open spec fn below_of(&self, left: Self::Price, right: Self::Price) -> bool {
        arbitrary()
    }

    /// Whether the first cost is strictly lower.
    fn below(&self, left: Self::Price, right: Self::Price) -> (lower: bool)
        ensures
            lower == self.below_of(left, right),
    ;

    /// The answer of [`SplitCosts::at_least`].
    open spec fn at_least_of(&self, left: Self::Price, right: Self::Price) -> bool {
        arbitrary()
    }

    /// Whether the first cost is no lower.
    fn at_least(&self, left: Self::Price, right: Self::Price) -> (no_lower: bool)
        ensures
            no_lower == self.at_least_of(left, right),
    ;

    /// The answer of [`SplitCosts::symbol_cost`].
    open spec fn symbol_of(&self, total: int, count: u32) -> Self::Price {
        arbitrary()
    }

    /// The cost of a symbol seen `count` times among `total`.
    fn symbol_cost(&self, total: usize, count: u32) -> (price: Self::Price)
        ensures
            price == self.symbol_of(total as int, count),
    ;

    /// The answer of [`SplitCosts::switch_cost`].
    open spec fn switch_of(&self, index: int) -> Self::Price {
        arbitrary()
    }

    /// The cost of switching at a symbol.
    fn switch_cost(&self, index: usize) -> (price: Self::Price)
        ensures
            price == self.switch_of(index as int),
    ;

    /// The answer of [`SplitCosts::move_cost`].
    open spec fn move_of(&self, block: Seq<u32>, candidate: Seq<u32>) -> Self::Price {
        arbitrary()
    }

    /// The cost of coding a block with another histogram.
    fn move_cost(&self, block: &Histogram, candidate: &Histogram) -> (price: Self::Price)
        ensures
            price == self.move_of(block@, candidate@),
    ;

    /// The answer of [`SplitCosts::next_merge`].
    open spec fn merge_of(
        &self,
        counts: Seq<Seq<u32>>,
        symbols: Seq<usize>,
        clusters: Seq<usize>,
        limit: int,
    ) -> Option<(usize, usize)> {
        arbitrary()
    }

    /// The two clusters to merge next, by their places in `clusters`, or `None`
    /// when merging no longer pays. `symbols` names the cluster of every block.
    fn next_merge(
        &self,
        histograms: &[Histogram],
        symbols: &[usize],
        clusters: &[usize],
        limit: usize,
    ) -> (pair: Option<(usize, usize)>)
        ensures
            pair == self.merge_of(counts_of(histograms@), symbols@, clusters@, limit as int),
    ;
}

/// The counts of some histograms.
pub open spec fn counts_of(histograms: Seq<Histogram>) -> Seq<Seq<u32>> {
    histograms.map_values(|histogram: Histogram| histogram@)
}

/// Costs in whole units, by counts alone.
#[derive(Copy, Clone, Debug, PartialEq, Eq, Structural)]
pub struct CountCosts {
    /// What a switch costs.
    pub switch: u64,
}

/// How many symbols of a block another histogram has not seen.
pub open spec fn unseen(block: Seq<u32>, candidate: Seq<u32>) -> int
    decreases block.len(),
{
    if block.len() == 0 {
        0
    } else {
        let last = block.len() - 1;
        unseen(block.drop_last(), candidate) + if last < candidate.len() && candidate[last] > 0 {
            0
        } else {
            block.last() as int
        }
    }
}

impl SplitCosts for CountCosts {
    type Price = u64;

    open spec fn zero_of(&self) -> u64 {
        0
    }

    fn zero(&self) -> u64 {
        0
    }

    open spec fn highest_of(&self) -> u64 {
        u64::MAX
    }

    fn highest(&self) -> u64 {
        u64::MAX
    }

    open spec fn plus_of(&self, left: u64, right: u64) -> u64 {
        if left + right > u64::MAX {
            u64::MAX
        } else {
            (left + right) as u64
        }
    }

    fn plus(&self, left: u64, right: u64) -> u64 {
        if left > u64::MAX - right {
            u64::MAX
        } else {
            left + right
        }
    }

    open spec fn minus_of(&self, left: u64, right: u64) -> u64 {
        if left < right {
            0
        } else {
            (left - right) as u64
        }
    }

    fn minus(&self, left: u64, right: u64) -> u64 {
        if left < right {
            0
        } else {
            left - right
        }
    }

    open spec fn below_of(&self, left: u64, right: u64) -> bool {
        left < right
    }

    fn below(&self, left: u64, right: u64) -> bool {
        left < right
    }

    open spec fn at_least_of(&self, left: u64, right: u64) -> bool {
        left >= right
    }

    fn at_least(&self, left: u64, right: u64) -> bool {
        left >= right
    }

    open spec fn symbol_of(&self, total: int, count: u32) -> u64 {
        if count == 0 {
            total as u64
        } else {
            (total / (count as int)) as u64
        }
    }

    fn symbol_cost(&self, total: usize, count: u32) -> u64 {
        if count == 0 {
            total as u64
        } else {
            total as u64 / count as u64
        }
    }

    open spec fn switch_of(&self, index: int) -> u64 {
        self.switch
    }

    fn switch_cost(&self, index: usize) -> u64 {
        self.switch
    }

    open spec fn move_of(&self, block: Seq<u32>, candidate: Seq<u32>) -> u64 {
        if unseen(block, candidate) > u64::MAX {
            u64::MAX
        } else {
            unseen(block, candidate) as u64
        }
    }

    fn move_cost(&self, block: &Histogram, candidate: &Histogram) -> u64 {
        let mut total: u128 = 0;
        let mut s: usize = 0;
        let n: usize = block.data.len();
        while s < n
            invariant
                n == block@.len(),
                s <= n,
                total == unseen(block@.take(s as int), candidate@),
                total <= s * 0x1_0000_0000,
            decreases n - s,
        {
            assert(block@.take(s + 1).drop_last() =~= block@.take(s as int));
            if s >= candidate.data.len() || candidate.data[s] == 0 {
                total = total + block.data[s] as u128;
            }
            s += 1;
        }
        assert(block@.take(n as int) =~= block@);
        if total > u64::MAX as u128 {
            u64::MAX
        } else {
            total as u64
        }
    }

    open spec fn merge_of(
        &self,
        counts: Seq<Seq<u32>>,
        symbols: Seq<usize>,
        clusters: Seq<usize>,
        limit: int,
    ) -> Option<(usize, usize)> {
        None
    }

    fn next_merge(
        &self,
        histograms: &[Histogram],
        symbols: &[usize],
        clusters: &[usize],
        limit: usize,
    ) -> Option<(usize, usize)> {
        None
    }
}

/// The pseudo-random generator that places the samples.
pub struct Rand(pub u32);

/// The state after a number of draws.
pub open spec fn drawn(seed: u32, draws: int) -> int
    decreases draws,
{
    if draws <= 0 {
        seed as int
    } else {
        (drawn(seed, draws - 1) * 16807) % 0x1_0000_0000
    }
}

impl Rand {
    /// Returns the next value, advancing the state.
    pub fn next(&mut self) -> (value: u32)
        ensures
            value == (old(self).0 * 16807) % 0x1_0000_0000,
            final(self).0 == value,
    {
        self.0 = ((self.0 as u64 * 16807) % 0x1_0000_0000) as u32;
        self.0
    }
}

/// How often a symbol occurs in a list.
pub open spec fn occurrences(data: Seq<u16>, symbol: int) -> int {
    math::tally(data, |s: u16| s == symbol) as int
}

/// Every symbol is one of the alphabet.
pub open spec fn within(data: Seq<u16>, alphabet: int) -> bool {
    forall|i: int| 0 <= i < data.len() ==> #[trigger] data[i] < alphabet
}

/// Counts a list of symbols.
pub fn add_vector(histogram: &mut Histogram, data: &[u16])
    requires
        old(histogram).wf(),
        within(data@, old(histogram)@.len() as int),
        old(histogram).total + data@.len() <= u32::MAX,
    ensures
        final(histogram).wf(),
        final(histogram).total == old(histogram).total + data@.len(),
        final(histogram)@.len() == old(histogram)@.len(),
        forall|s: int|
            0 <= s < old(histogram)@.len() ==> #[trigger] final(histogram)@[s] == old(histogram)@[s]
                + occurrences(data@, s),
{
    let ghost before = histogram@;
    let mut i: usize = 0;
    while i < data.len()
        invariant
            histogram.wf(),
            histogram@.len() == before.len(),
            within(data@, before.len() as int),
            i <= data@.len(),
            histogram.total == old(histogram).total + i,
            old(histogram).total + data@.len() <= u32::MAX,
            forall|s: int|
                0 <= s < before.len() ==> #[trigger] histogram@[s] == before[s] + occurrences(
                    data@.take(i as int),
                    s,
                ),
        decreases data@.len() - i,
    {
        let ghost held = histogram@;
        assert(data@[i as int] < before.len());
        histogram.add(data[i] as usize);
        proof {
            assert(data@.take(i + 1).drop_last() =~= data@.take(i as int));
            assert forall|s: int| 0 <= s < before.len() implies #[trigger] histogram@[s] == before[s]
                + occurrences(data@.take(i + 1), s) by {
                assert(held[s] == before[s] + occurrences(data@.take(i as int), s));
            }
        }
        i += 1;
    }
    assert(data@.take(data@.len() as int) =~= data@);
}

/// Where the sample that seeds a histogram starts: at its share of the stream,
/// moved a pseudo-random way into it, and back from the end where it must be.
pub open spec fn seed_start(length: int, stride: int, num: int, k: int) -> int {
    let share = length / num;
    let at = length * k / num + if k != 0 && share != 0 {
        drawn(7, k) % share
    } else {
        0
    };
    if at + stride < length {
        at
    } else if length > stride + 1 {
        length - stride - 1
    } else {
        0
    }
}

/// The sample that seeds a histogram.
pub open spec fn seed_sample(data: Seq<u16>, stride: int, num: int, k: int) -> Seq<u16> {
    let start = seed_start(data.len() as int, stride, num, k);
    data.subrange(
        start,
        if start + stride < data.len() {
            start + stride
        } else {
            data.len() as int
        },
    )
}

/// The stream and its histograms are of one alphabet.
pub open spec fn histograms_ok(histograms: Seq<Histogram>, alphabet: int) -> bool {
    forall|k: int| 0 <= k < histograms.len() ==> #[trigger] histogram_ok(histograms[k], alphabet)
}

/// A histogram of an alphabet.
pub open spec fn histogram_ok(histogram: Histogram, alphabet: int) -> bool {
    histogram.wf() && histogram@.len() == alphabet
}

/// Seeds entropy codes from evenly spread samples, one per histogram.
pub fn initial_entropy_codes(data: &[u16], alphabet: usize, stride: usize, num: usize) -> (histograms:
    Vec<Histogram>)
    requires
        0 < data@.len() <= MAX_STREAM,
        within(data@, alphabet as int),
        1 <= stride <= 100,
        1 <= num <= MAX_SEEDED_HISTOGRAMS,
    ensures
        histograms@.len() == num,
        histograms_ok(histograms@, alphabet as int),
        forall|k: int|
            0 <= k < num ==> (#[trigger] histograms@[k]).total <= stride && forall|s: int|
                0 <= s < alphabet ==> #[trigger] histograms@[k]@[s] == occurrences(
                    seed_sample(data@, stride as int, num as int, k),
                    s,
                ),
{
    let length: usize = data.len();
    let mut seed = Rand(7);
    let share: usize = length / num;
    let mut histograms: Vec<Histogram> = Vec::new();
    let mut k: usize = 0;
    while k < num
        invariant
            length == data@.len(),
            0 < length <= MAX_STREAM,
            within(data@, alphabet as int),
            1 <= stride <= 100,
            1 <= num <= MAX_SEEDED_HISTOGRAMS,
            share == length / num,
            k <= num,
            share != 0 && k > 0 ==> seed.0 == drawn(7, k - 1),
            k == 0 ==> seed.0 == 7,
            histograms@.len() == k,
            histograms_ok(histograms@, alphabet as int),
            forall|j: int|
                0 <= j < k ==> (#[trigger] histograms@[j]).total <= stride && forall|s: int|
                    0 <= s < alphabet ==> #[trigger] histograms@[j]@[s] == occurrences(
                        seed_sample(data@, stride as int, num as int, j),
                        s,
                    ),
        decreases num - k,
    {
        proof {
            assert(length * k <= 0x64_0000_0000) by (nonlinear_arith)
                requires
                    length <= 0x1000_0000,
                    k <= 100,
            ;
            assert((length * k) / num as int <= length) by (nonlinear_arith)
                requires
                    0 <= k <= num,
                    num >= 1,
                    length >= 0,
            ;
        }
        let mut pos: usize = ((length as u64 * k as u64) / num as u64) as usize;
        if k != 0 && share != 0 {
            pos += seed.next() as usize % share;
        }
        if pos + stride >= length {
            pos = if length > stride + 1 {
                length - stride - 1
            } else {
                0
            };
        }
        let end: usize = if pos + stride < length {
            pos + stride
        } else {
            length
        };
        assert(pos == seed_start(length as int, stride as int, num as int, k as int));
        let sample = &data[pos..end];
        assert(sample@ =~= seed_sample(data@, stride as int, num as int, k as int));
        assert forall|i: int| 0 <= i < sample@.len() implies #[trigger] sample@[i] < alphabet by {
            assert(sample@[i] == data@[pos + i]);
        }
        let mut histogram = Histogram::new(alphabet);
        add_vector(&mut histogram, sample);
        histograms.push(histogram);
        k += 1;
    }
    histograms
}

/// Where the sample of a refinement pass starts.
pub open spec fn sample_start(length: int, stride: int, pass: int) -> int {
    if stride >= length {
        0
    } else {
        drawn(7, pass + 1) % (length - stride + 1)
    }
}

/// The sample of a refinement pass.
pub open spec fn pass_sample(data: Seq<u16>, stride: int, pass: int) -> Seq<u16> {
    let start = sample_start(data.len() as int, stride, pass);
    data.subrange(
        start,
        if stride >= data.len() {
            data.len() as int
        } else {
            start + stride
        },
    )
}

/// What the refinement passes add to one count of one histogram.
pub open spec fn refined(data: Seq<u16>, stride: int, num: int, passes: int, k: int, s: int) -> int
    decreases passes,
{
    if passes <= 0 {
        0
    } else {
        refined(data, stride, num, passes - 1, k, s) + if (passes - 1) % num == k {
            occurrences(pass_sample(data, stride, passes - 1), s)
        } else {
            0
        }
    }
}

/// How many refinement passes a stream gets: a whole number per histogram.
pub open spec fn passes_for(length: int, stride: int, num: int) -> int {
    ((ITER_MUL_FOR_REFINING * length / stride + MIN_ITERS_FOR_REFINING + num - 1) / num) * num
}

/// Folds more pseudo-random samples into the seeded codes.
pub fn refine_entropy_codes(
    data: &[u16],
    alphabet: usize,
    stride: usize,
    num: usize,
    histograms: &mut Vec<Histogram>,
)
    requires
        0 < data@.len() <= MAX_STREAM,
        within(data@, alphabet as int),
        1 <= stride <= 100,
        1 <= num <= MAX_SEEDED_HISTOGRAMS,
        old(histograms)@.len() == num,
        histograms_ok(old(histograms)@, alphabet as int),
        forall|k: int| 0 <= k < num ==> (#[trigger] old(histograms)@[k]).total <= stride,
    ensures
        final(histograms)@.len() == num,
        histograms_ok(final(histograms)@, alphabet as int),
        forall|k: int, s: int|
            0 <= k < num && 0 <= s < alphabet ==> #[trigger] final(histograms)@[k]@[s] == old(histograms)@[k]@[s] + refined(
                data@,
                stride as int,
                num as int,
                passes_for(data@.len() as int, stride as int, num as int),
                k,
                s,
            ),
{
    let ghost first = histograms@;
    let length: usize = data.len();
    let asked: usize = ITER_MUL_FOR_REFINING * length / stride + MIN_ITERS_FOR_REFINING;
    let groups: usize = (asked + num - 1) / num;
    proof {
        assert(asked <= 2 * length + 100) by (nonlinear_arith)
            requires
                asked == (2 * length) / stride as int + 100,
                stride >= 1,
        ;
        assert(groups * num <= asked + num - 1) by (nonlinear_arith)
            requires
                groups == (asked + num - 1) / num as int,
                num >= 1,
        ;
        assert(asked * stride <= 2 * length + 100 * stride) by (nonlinear_arith)
            requires
                asked == (2 * length) / stride as int + 100,
                stride >= 1,
        ;
    }
    let passes: usize = groups * num;
    proof {
        assert((passes + 1) * stride <= 2 * length + 30000) by (nonlinear_arith)
            requires
                passes <= asked + num - 1,
                asked * stride <= 2 * length + 100 * stride,
                stride <= 100,
                num <= 100,
        ;
    }
    let mut seed = Rand(7);
    let mut pass: usize = 0;
    while pass < passes
        invariant
            length == data@.len(),
            0 < length <= MAX_STREAM,
            within(data@, alphabet as int),
            1 <= stride <= 100,
            1 <= num <= MAX_SEEDED_HISTOGRAMS,
            pass <= passes,
            (passes + 1) * stride <= 2 * length + 30000,
            stride < length ==> seed.0 == drawn(7, pass as int),
            first.len() == num,
            histograms@.len() == num,
            histograms_ok(histograms@, alphabet as int),
            forall|k: int|
                0 <= k < num ==> (#[trigger] histograms@[k]).total <= (pass + 1) * stride,
            forall|k: int, s: int|
                0 <= k < num && 0 <= s < alphabet ==> #[trigger] histograms@[k]@[s] == first[k]@[s]
                    + refined(data@, stride as int, num as int, pass as int, k, s),
        decreases passes - pass,
    {
        let mut pos: usize = 0;
        let mut many: usize = length;
        if stride < length {
            pos = seed.next() as usize % (length - stride + 1);
            many = stride;
        }
        let sample = &data[pos..pos + many];
        assert(sample@ =~= pass_sample(data@, stride as int, pass as int));
        assert forall|i: int| 0 <= i < sample@.len() implies #[trigger] sample@[i] < alphabet by {
            assert(sample@[i] == data@[pos + i]);
        }
        let target: usize = pass % num;
        let ghost held = histograms@;
        proof {
            assert(histogram_ok(held[target as int], alphabet as int));
            assert((pass + 1) * stride + stride == (pass + 2) * stride) by (nonlinear_arith);
            assert((pass + 2) * stride <= (passes + 1) * stride) by (nonlinear_arith)
                requires
                    pass + 2 <= passes + 1,
            ;
            assert((pass + 1) * stride <= (pass + 2) * stride) by (nonlinear_arith);
        }
        let mut histogram = Histogram::new(0);
        std::mem::swap(&mut histogram, &mut histograms[target]);
        add_vector(&mut histogram, sample);
        histograms.set(target, histogram);
        proof {
            assert forall|k: int| 0 <= k < num implies #[trigger] histogram_ok(
                histograms@[k],
                alphabet as int,
            ) by {
                assert(histogram_ok(held[k], alphabet as int));
            }
            assert forall|k: int, s: int| 0 <= k < num && 0 <= s < alphabet implies
                #[trigger] histograms@[k]@[s] == first[k]@[s] + refined(
                data@,
                stride as int,
                num as int,
                pass + 1,
                k,
                s,
            ) by {
                assert(held[k]@[s] == first[k]@[s] + refined(
                    data@,
                    stride as int,
                    num as int,
                    pass as int,
                    k,
                    s,
                ));
            }
            assert forall|k: int| 0 <= k < num implies (#[trigger] histograms@[k]).total <= (pass
                + 2) * stride by {
                assert(held[k].total <= (pass + 1) * stride);
            }
        }
        pass += 1;
    }
}

/// A code is marked at a symbol: arriving with it is as dear as switching.
pub open spec fn marked(marks: u128, code: u8) -> bool {
    (marks >> (code as u128)) & 1 == 1
}

/// The code each symbol ends up with: its successor's, unless that is marked
/// here, then the one that is cheapest here.
pub open spec fn traced(best: Seq<u8>, marks: Seq<u128>, i: int) -> u8
    decreases best.len() - i,
{
    if i + 1 >= best.len() {
        best[best.len() - 1]
    } else {
        let later = traced(best, marks, i + 1);
        if marked(marks[i], later) {
            best[i]
        } else {
            later
        }
    }
}

/// Traces the cheapest codes back from the end, and returns how many blocks they
/// make.
pub fn trace_back(ids: &mut Vec<u8>, marks: &Vec<u128>) -> (num_blocks: usize)
    requires
        old(ids)@.len() > 0,
        old(ids)@.len() == marks@.len(),
        forall|i: int| 0 <= i < old(ids)@.len() ==> #[trigger] old(ids)@[i] < 128,
    ensures
        final(ids)@.len() == old(ids)@.len(),
        forall|i: int|
            0 <= i < old(ids)@.len() ==> #[trigger] final(ids)@[i] == traced(old(ids)@, marks@, i),
        num_blocks == runs::runs_of(final(ids)@).len(),
{
    let ghost best = ids@;
    let length: usize = ids.len();
    let mut num_blocks: usize = 1;
    let mut at: usize = length - 1;
    let mut current: u8 = ids[at];
    while at > 0
        invariant
            ids@.len() == best.len(),
            best.len() == length,
            best.len() == marks@.len(),
            at < best.len(),
            current < 128,
            current == traced(best, marks@, at as int),
            forall|i: int| 0 <= i < best.len() ==> #[trigger] best[i] < 128,
            forall|i: int| 0 <= i < at ==> #[trigger] ids@[i] == best[i],
            forall|i: int|
                at <= i < best.len() ==> #[trigger] ids@[i] == traced(best, marks@, i),
            num_blocks == 1 + runs::changes_from(ids@, at as int),
            num_blocks <= best.len() - at,
        decreases at,
    {
        let ghost before = ids@;
        let ghost upper = at as int;
        at -= 1;
        let here: u8 = ids[at];
        assert(best[at as int] < 128);
        if (marks[at] >> (current as u128)) & 1 == 1 && current != here {
            current = here;
            num_blocks += 1;
        }
        ids.set(at, current);
        proof {
            runs::lemma_changes_frame(before, ids@, upper);
        }
    }
    proof {
        runs::lemma_runs_count(ids@);
    }
    num_blocks
}

/// What a symbol costs under each of some codes.
pub open spec fn row_of<C: SplitCosts>(costs: &C, counts: Seq<Seq<u32>>, num: int, s: int) -> Seq<
    C::Price,
> {
    Seq::new(
        num as nat,
        |k: int| costs.symbol_of(histogram::sum(counts[k]), counts[k][s]),
    )
}

/// The costs of arriving with each code, once a symbol's were added from the `k`th
/// on, the first code that is cheapest, and what it costs.
pub open spec fn advanced<C: SplitCosts>(
    costs: &C,
    row: Seq<C::Price>,
    cost: Seq<C::Price>,
    k: int,
    best: int,
    lowest: C::Price,
) -> (Seq<C::Price>, int, C::Price)
    decreases row.len() - k,
{
    if k < 0 || k >= row.len() {
        (cost, best, lowest)
    } else {
        let here = costs.plus_of(cost[k], row[k]);
        let lower = costs.below_of(here, lowest);
        advanced(
            costs,
            row,
            cost.update(k, here),
            k + 1,
            if lower {
                k
            } else {
                best
            },
            if lower {
                here
            } else {
                lowest
            },
        )
    }
}

/// A code is as dear as switching.
pub open spec fn too_dear<C: SplitCosts>(
    costs: &C,
    arrived: Seq<C::Price>,
    lowest: C::Price,
    switch: C::Price,
    k: int,
) -> bool {
    costs.at_least_of(costs.minus_of(arrived[k], lowest), switch)
}

/// How much dearer each code is than the cheapest, at most a switch.
pub open spec fn carried<C: SplitCosts>(
    costs: &C,
    arrived: Seq<C::Price>,
    lowest: C::Price,
    switch: C::Price,
) -> Seq<C::Price> {
    Seq::new(
        arrived.len(),
        |k: int|
            if too_dear(costs, arrived, lowest, switch, k) {
                switch
            } else {
                costs.minus_of(arrived[k], lowest)
            },
    )
}

/// The costs each code has before a symbol.
pub open spec fn cost_before<C: SplitCosts>(
    costs: &C,
    data: Seq<u16>,
    counts: Seq<Seq<u32>>,
    num: int,
    i: int,
) -> Seq<C::Price>
    decreases i,
{
    if i <= 0 {
        Seq::new(num as nat, |k: int| costs.zero_of())
    } else {
        let before = cost_before(costs, data, counts, num, i - 1);
        let (arrived, best, lowest) = advanced(
            costs,
            row_of(costs, counts, num, data[i - 1] as int),
            before,
            0,
            0,
            costs.highest_of(),
        );
        carried(costs, arrived, lowest, costs.switch_of(i - 1))
    }
}

/// The costs each code has at a symbol, the cheapest code there, and what it costs.
pub open spec fn arrival_at<C: SplitCosts>(
    costs: &C,
    data: Seq<u16>,
    counts: Seq<Seq<u32>>,
    num: int,
    i: int,
) -> (Seq<C::Price>, int, C::Price) {
    advanced(
        costs,
        row_of(costs, counts, num, data[i] as int),
        cost_before(costs, data, counts, num, i),
        0,
        0,
        costs.highest_of(),
    )
}

/// A code is as dear as switching at a symbol.
pub open spec fn dear_at<C: SplitCosts>(
    costs: &C,
    data: Seq<u16>,
    counts: Seq<Seq<u32>>,
    num: int,
    i: int,
    k: int,
) -> bool {
    let (arrived, best, lowest) = arrival_at(costs, data, counts, num, i);
    too_dear(costs, arrived, lowest, costs.switch_of(i), k)
}

/// The code a symbol gets: its successor's, unless that is as dear as switching
/// here, then the one that is cheapest here.
pub open spec fn code_at<C: SplitCosts>(
    costs: &C,
    data: Seq<u16>,
    counts: Seq<Seq<u32>>,
    num: int,
    i: int,
) -> int
    decreases data.len() - i,
{
    if i + 1 >= data.len() {
        arrival_at(costs, data, counts, num, data.len() - 1).1
    } else {
        let later = code_at(costs, data, counts, num, i + 1);
        if dear_at(costs, data, counts, num, i, later) {
            arrival_at(costs, data, counts, num, i).1
        } else {
            later
        }
    }
}

/// Tracing back gives every symbol its code.
proof fn lemma_traced_codes<C: SplitCosts>(
    costs: &C,
    data: Seq<u16>,
    counts: Seq<Seq<u32>>,
    num: int,
    best: Seq<u8>,
    marks: Seq<u128>,
    i: int,
)
    requires
        0 <= i < data.len(),
        best.len() == data.len(),
        marks.len() == data.len(),
        0 < num <= 128,
        forall|j: int|
            0 <= j < data.len() ==> #[trigger] best[j] == arrival_at(costs, data, counts, num, j).1
                && best[j] < num,
        forall|j: int, k: int|
            0 <= j < data.len() && 0 <= k < num ==> #[trigger] marked(marks[j], k as u8) == dear_at(
                costs,
                data,
                counts,
                num,
                j,
                k,
            ),
    ensures
        traced(best, marks, i) == code_at(costs, data, counts, num, i),
        traced(best, marks, i) < num,
    decreases data.len() - i,
{
    if i + 1 < data.len() {
        lemma_traced_codes(costs, data, counts, num, best, marks, i + 1);
        let later = traced(best, marks, i + 1);
        assert(marked(marks[i], later as int as u8) == dear_at(
            costs,
            data,
            counts,
            num,
            i,
            later as int,
        ));
        assert(best[i] == arrival_at(costs, data, counts, num, i).1);
    } else {
        assert(best[best.len() - 1] == arrival_at(costs, data, counts, num, data.len() - 1).1);
    }
}

/// Assigns each symbol the entropy code that codes it most cheaply, and returns
/// the codes and how many blocks they make.
///
/// The forward pass keeps, for every code, how much dearer arriving here with
/// that code is than with the best one, capped at the switch cost; reaching the
/// cap marks a place where tracing back must switch.
pub fn find_blocks<C: SplitCosts>(
    data: &[u16],
    alphabet: usize,
    num: usize,
    histograms: &Vec<Histogram>,
    costs: &C,
) -> (out: (Vec<u8>, usize))
    requires
        0 < data@.len() <= MAX_STREAM,
        within(data@, alphabet as int),
        1 <= num <= MAX_SEEDED_HISTOGRAMS,
        num <= histograms@.len(),
        histograms_ok(histograms@, alphabet as int),
    ensures
        out.0@.len() == data@.len(),
        forall|i: int|
            0 <= i < out.0@.len() ==> #[trigger] out.0@[i] == code_at(
                costs,
                data@,
                counts_of(histograms@),
                num as int,
                i,
            ),
        forall|i: int| 0 <= i < out.0@.len() ==> #[trigger] out.0@[i] < num,
        out.1 == runs::runs_of(out.0@).len(),
        num == 1 ==> forall|i: int| 0 <= i < out.0@.len() ==> #[trigger] out.0@[i] == 0,
{
    let length: usize = data.len();
    let mut ids: Vec<u8> = Vec::new();
    let mut marks: Vec<u128> = Vec::new();
    let table = price_table(alphabet, num, histograms, costs);
    let ghost counts = counts_of(histograms@);
    let mut cost: Vec<C::Price> = Vec::new();
    while cost.len() < num
        invariant
            cost@.len() <= num,
            forall|k: int| 0 <= k < cost@.len() ==> #[trigger] cost@[k] == costs.zero_of(),
        decreases num - cost@.len(),
    {
        cost.push(costs.zero());
    }
    assert(cost@ =~= cost_before(costs, data@, counts, num as int, 0));
    let mut i: usize = 0;
    while i < length
        invariant
            length == data@.len(),
            within(data@, alphabet as int),
            1 <= num <= MAX_SEEDED_HISTOGRAMS,
            table@.len() == alphabet,
            counts == counts_of(histograms@),
            forall|s: int|
                0 <= s < alphabet ==> (#[trigger] table@[s])@ == row_of(
                    costs,
                    counts,
                    num as int,
                    s,
                ),
            cost@.len() == num,
            cost@ == cost_before(costs, data@, counts, num as int, i as int),
            forall|j: int|
                0 <= j < i ==> #[trigger] ids@[j] == arrival_at(
                    costs,
                    data@,
                    counts,
                    num as int,
                    j,
                ).1,
            forall|j: int, k: int|
                0 <= j < i && 0 <= k < num ==> #[trigger] marked(marks@[j], k as u8) == dear_at(
                    costs,
                    data@,
                    counts,
                    num as int,
                    j,
                    k,
                ),
            i <= length,
            ids@.len() == i,
            marks@.len() == i,
            forall|j: int| 0 <= j < i ==> #[trigger] ids@[j] < num,
        decreases length - i,
    {
        assert(data@[i as int] < alphabet);
        let row = &table[data[i] as usize];
        let (best, lowest) = advance(row, num, costs, &mut cost);
        let switch = costs.switch_cost(i);
        let mut bits: u128 = 0;
        let mut k: usize = 0;
        let ghost arrived = cost@;
        proof {
            assert((arrived, best as int, lowest) == arrival_at(
                costs,
                data@,
                counts,
                num as int,
                i as int,
            ));
            assert forall|j: int| 0 <= j < 128 implies !#[trigger] marked(0, j as u8) by {
                math::lemma_wide_zero(j as u8 as u128);
            }
        }
        while k < num
            invariant
                arrived.len() == num,
                forall|j: int|
                    0 <= j < k ==> #[trigger] cost@[j] == carried(costs, arrived, lowest, switch)[j],
                forall|j: int| k <= j < num ==> #[trigger] cost@[j] == arrived[j],
                forall|j: int|
                    0 <= j < num ==> #[trigger] marked(bits, j as u8) == (j < k && too_dear(
                        costs,
                        arrived,
                        lowest,
                        switch,
                        j,
                    )),
                1 <= num <= MAX_SEEDED_HISTOGRAMS,
                cost@.len() == num,
                k <= num,
            decreases num - k,
        {
            let over = costs.minus(cost[k], lowest);
            let ghost before = bits;
            if costs.at_least(over, switch) {
                cost.set(k, switch);
                bits = bits | (1u128 << (k as u128));
                proof {
                    assert forall|j: int| 0 <= j < num implies #[trigger] marked(bits, j as u8) == (
                    j == k || marked(before, j as u8)) by {
                        math::lemma_wide_bit_set(before, k as u128, j as u8 as u128);
                    }
                }
            } else {
                cost.set(k, over);
            }
            k += 1;
        }
        assert(cost@ =~= carried(costs, arrived, lowest, switch));
        ids.push(best);
        marks.push(bits);
        i += 1;
    }
    let ghost found = ids@;
    proof {
        assert forall|j: int| 0 <= j < data@.len() implies traced(found, marks@, j) == code_at(
            costs,
            data@,
            counts,
            num as int,
            j,
        ) && #[trigger] traced(found, marks@, j) < num by {
            lemma_traced_codes(costs, data@, counts, num as int, found, marks@, j);
        }
    }
    let num_blocks: usize = trace_back(&mut ids, &marks);
    proof {
        assert forall|j: int| 0 <= j < ids@.len() implies #[trigger] ids@[j] < num by {
            assert(traced(found, marks@, j) < num);
        }
        assert forall|j: int| 0 <= j < ids@.len() implies #[trigger] ids@[j] == code_at(
            costs,
            data@,
            counts,
            num as int,
            j,
        ) by {
            assert(traced(found, marks@, j) < num);
        }
    }
    (ids, num_blocks)
}

/// Prices every symbol under every code.
fn price_table<C: SplitCosts>(
    alphabet: usize,
    num: usize,
    histograms: &Vec<Histogram>,
    costs: &C,
) -> (table: Vec<Vec<C::Price>>)
    requires
        num <= histograms@.len(),
        histograms_ok(histograms@, alphabet as int),
    ensures
        table@.len() == alphabet,
        forall|s: int|
            0 <= s < alphabet ==> (#[trigger] table@[s])@ == row_of(
                costs,
                counts_of(histograms@),
                num as int,
                s,
            ),
{
    let mut table: Vec<Vec<C::Price>> = Vec::new();
    while table.len() < alphabet
        invariant
            num <= histograms@.len(),
            histograms_ok(histograms@, alphabet as int),
            table@.len() <= alphabet,
            forall|s: int|
                0 <= s < table@.len() ==> (#[trigger] table@[s])@ == row_of(
                    costs,
                    counts_of(histograms@),
                    num as int,
                    s,
                ),
        decreases alphabet - table@.len(),
    {
        let symbol: usize = table.len();
        let mut row: Vec<C::Price> = Vec::new();
        assert(row@ =~= row_of(costs, counts_of(histograms@), num as int, symbol as int).take(0));
        while row.len() < num
            invariant
                num <= histograms@.len(),
                histograms_ok(histograms@, alphabet as int),
                symbol < alphabet,
                row@.len() <= num,
                row@ == row_of(costs, counts_of(histograms@), num as int, symbol as int).take(
                    row@.len() as int,
                ),
            decreases num - row@.len(),
        {
            let k: usize = row.len();
            assert(histogram_ok(histograms@[k as int], alphabet as int));
            let count: u32 = histograms[k].data[symbol];
            row.push(costs.symbol_cost(histograms[k].total, count));
            assert(row@ =~= row_of(costs, counts_of(histograms@), num as int, symbol as int).take(
                row@.len() as int,
            ));
        }
        assert(row@ =~= row_of(costs, counts_of(histograms@), num as int, symbol as int));
        table.push(row);
    }
    table
}

/// Adds a symbol's price to every code's cost, and returns the cheapest code.
fn advance<C: SplitCosts>(
    row: &Vec<C::Price>,
    num: usize,
    costs: &C,
    cost: &mut Vec<C::Price>,
) -> (out: (u8, C::Price))
    requires
        1 <= num <= MAX_SEEDED_HISTOGRAMS,
        row@.len() == num,
        old(cost)@.len() == num,
    ensures
        final(cost)@.len() == num,
        out.0 < num,
        (final(cost)@, out.0 as int, out.1) == advanced(
            costs,
            row@,
            old(cost)@,
            0,
            0,
            costs.highest_of(),
        ),
{
    let mut lowest = costs.highest();
    let mut best: u8 = 0;
    let mut k: usize = 0;
    while k < num
        invariant
            1 <= num <= MAX_SEEDED_HISTOGRAMS,
            row@.len() == num,
            cost@.len() == num,
            k <= num,
            best < num,
            advanced(costs, row@, cost@, k as int, best as int, lowest) == advanced(
                costs,
                row@,
                old(cost)@,
                0,
                0,
                costs.highest_of(),
            ),
        decreases num - k,
    {
        let here = costs.plus(cost[k], row[k]);
        cost.set(k, here);
        if costs.below(here, lowest) {
            lowest = here;
            best = k as u8;
        }
        k += 1;
    }
    (best, lowest)
}

/// Renumbers block ids into a dense range, in order of appearance, and returns
/// how many distinct ids there are.
pub fn remap_block_ids(ids: &mut Vec<u8>, num: usize) -> (count: usize)
    requires
        forall|i: int| 0 <= i < old(ids)@.len() ==> #[trigger] old(ids)@[i] < num,
        num <= 256,
    ensures
        final(ids)@.len() == old(ids)@.len(),
        count == runs::appeared(old(ids)@).len(),
        count <= num,
        forall|i: int|
            0 <= i < old(ids)@.len() ==> #[trigger] final(ids)@[i] == runs::number_in(
                runs::appeared(old(ids)@),
                old(ids)@[i],
            ) && final(ids)@[i] < count,
{
    let ghost before = ids@;
    let mut wide: Vec<usize> = Vec::new();
    let mut i: usize = 0;
    while i < ids.len()
        invariant
            ids@ == before,
            i <= before.len(),
            wide@.len() == i,
            forall|j: int| 0 <= j < before.len() ==> #[trigger] before[j] < num,
            forall|j: int| 0 <= j < i ==> #[trigger] wide@[j] == before[j],
        decreases before.len() - i,
    {
        wide.push(ids[i] as usize);
        i += 1;
    }
    proof {
        assert forall|j: int| 0 <= j < wide@.len() implies #[trigger] wide@[j] < num by {
            assert(before[j] < num);
        }
    }
    let (dense, count) = runs::renumber(&wide, num);
    proof {
        lemma_appeared_widened(before, wide@);
        runs::lemma_appeared(before);
    }
    i = 0;
    while i < ids.len()
        invariant
            ids@.len() == before.len(),
            dense@.len() == before.len(),
            wide@.len() == before.len(),
            count <= num <= 256,
            i <= before.len(),
            forall|j: int| 0 <= j < before.len() ==> #[trigger] dense@[j] < count,
            forall|j: int| 0 <= j < i ==> #[trigger] ids@[j] == dense@[j],
        decreases before.len() - i,
    {
        assert(dense@[i as int] < count);
        ids.set(i, dense[i] as u8);
        i += 1;
    }
    proof {
        assert forall|j: int| 0 <= j < before.len() implies #[trigger] ids@[j] == runs::number_in(
            runs::appeared(before),
            before[j],
        ) && ids@[j] < count by {
            assert(ids@[j] == dense@[j]);
            assert(runs::appeared(before).contains(before[j]));
            let order = runs::appeared(before);
            let k = order.index_of(before[j]);
            assert(order[k] == before[j]);
            assert(order[dense@[j] as int] == before[j]);
        }
    }
    count
}

/// Widening ids keeps their order of appearance.
proof fn lemma_appeared_widened(narrow: Seq<u8>, wide: Seq<usize>)
    requires
        narrow.len() == wide.len(),
        forall|i: int| 0 <= i < wide.len() ==> #[trigger] wide[i] == narrow[i],
    ensures
        runs::appeared(narrow).len() == runs::appeared(wide).len(),
        forall|k: int|
            0 <= k < runs::appeared(wide).len() ==> #[trigger] runs::appeared(wide)[k]
                == runs::appeared(narrow)[k],
    decreases narrow.len(),
{
    if narrow.len() > 0 {
        lemma_appeared_widened(narrow.drop_last(), wide.drop_last());
        let a = runs::appeared(narrow.drop_last());
        let b = runs::appeared(wide.drop_last());
        if a.contains(narrow.last()) {
            let k = a.index_of(narrow.last());
            assert(b[k] == wide.last());
        }
        if b.contains(wide.last()) {
            let k = b.index_of(wide.last());
            assert(a[k] == narrow.last());
        }
    }
}

/// How often a symbol occurs in the blocks of one id.
pub open spec fn occurrences_in(data: Seq<u16>, ids: Seq<u8>, k: int, s: int) -> int
    decreases data.len(),
{
    if data.len() == 0 {
        0
    } else {
        occurrences_in(data.drop_last(), ids.drop_last(), k, s) + if ids.last() == k && data.last()
            == s {
            1int
        } else {
            0
        }
    }
}

/// Rebuilds the entropy codes from an assignment of ids.
pub fn build_block_histograms(data: &[u16], ids: &Vec<u8>, alphabet: usize, num: usize) -> (histograms:
    Vec<Histogram>)
    requires
        data@.len() == ids@.len(),
        data@.len() <= MAX_STREAM,
        within(data@, alphabet as int),
        forall|i: int| 0 <= i < ids@.len() ==> #[trigger] ids@[i] < num,
    ensures
        histograms@.len() == num,
        histograms_ok(histograms@, alphabet as int),
        forall|k: int, s: int|
            0 <= k < num && 0 <= s < alphabet ==> #[trigger] histograms@[k]@[s] == occurrences_in(
                data@,
                ids@,
                k,
                s,
            ),
{
    let mut histograms: Vec<Histogram> = Vec::new();
    while histograms.len() < num
        invariant
            histograms@.len() <= num,
            histograms_ok(histograms@, alphabet as int),
            forall|k: int| 0 <= k < histograms@.len() ==> (#[trigger] histograms@[k]).total == 0,
            forall|k: int, s: int|
                0 <= k < histograms@.len() && 0 <= s < alphabet ==> #[trigger] histograms@[k]@[s]
                    == 0,
        decreases num - histograms@.len(),
    {
        histograms.push(Histogram::new(alphabet));
    }
    let mut i: usize = 0;
    while i < data.len()
        invariant
            data@.len() == ids@.len(),
            data@.len() <= MAX_STREAM,
            within(data@, alphabet as int),
            forall|j: int| 0 <= j < ids@.len() ==> #[trigger] ids@[j] < num,
            i <= data@.len(),
            histograms@.len() == num,
            histograms_ok(histograms@, alphabet as int),
            forall|k: int| 0 <= k < num ==> (#[trigger] histograms@[k]).total <= i,
            forall|k: int, s: int|
                0 <= k < num && 0 <= s < alphabet ==> #[trigger] histograms@[k]@[s]
                    == occurrences_in(data@.take(i as int), ids@.take(i as int), k, s),
        decreases data@.len() - i,
    {
        let ghost held = histograms@;
        let id: usize = ids[i] as usize;
        assert(data@[i as int] < alphabet && ids@[i as int] < num);
        assert(histogram_ok(held[id as int], alphabet as int));
        let mut histogram = Histogram::new(0);
        std::mem::swap(&mut histogram, &mut histograms[id]);
        histogram.add(data[i] as usize);
        histograms.set(id, histogram);
        proof {
            assert(data@.take(i + 1).drop_last() =~= data@.take(i as int));
            assert(ids@.take(i + 1).drop_last() =~= ids@.take(i as int));
            assert forall|k: int| 0 <= k < num implies #[trigger] histogram_ok(
                histograms@[k],
                alphabet as int,
            ) by {
                assert(histogram_ok(held[k], alphabet as int));
            }
            assert forall|k: int| 0 <= k < num implies (#[trigger] histograms@[k]).total <= i + 1 by {
                assert(held[k].total <= i);
            }
            assert forall|k: int, s: int| 0 <= k < num && 0 <= s < alphabet implies
                #[trigger] histograms@[k]@[s] == occurrences_in(
                data@.take(i + 1),
                ids@.take(i + 1),
                k,
                s,
            ) by {
                assert(held[k]@[s] == occurrences_in(
                    data@.take(i as int),
                    ids@.take(i as int),
                    k,
                    s,
                ));
            }
        }
        i += 1;
    }
    assert(data@.take(data@.len() as int) =~= data@);
    assert(ids@.take(ids@.len() as int) =~= ids@);
    histograms
}

/// How many symbols some clusters count together.
pub open spec fn weight(histograms: Seq<Histogram>, clusters: Seq<usize>) -> int
    decreases clusters.len(),
{
    if clusters.len() == 0 {
        0
    } else {
        weight(histograms, clusters.drop_last()) + histograms[clusters.last() as int].total
    }
}

/// The clusters are some of the histograms, each once.
pub open spec fn clusters_ok(clusters: Seq<usize>, num: int) -> bool {
    &&& clusters.no_duplicates()
    &&& forall|i: int| 0 <= i < clusters.len() ==> #[trigger] clusters[i] < num
}

/// A cluster's share of a weight.
proof fn lemma_weight_part(histograms: Seq<Histogram>, clusters: Seq<usize>, i: int)
    requires
        0 <= i < clusters.len(),
    ensures
        weight(histograms, clusters) == weight(histograms, clusters.remove(i))
            + histograms[clusters[i] as int].total,
        weight(histograms, clusters) >= 0,
        weight(histograms, clusters.remove(i)) >= 0,
    decreases clusters.len(),
{
    if i == clusters.len() - 1 {
        assert(clusters.remove(i) =~= clusters.drop_last());
        lemma_weight_positive(histograms, clusters.drop_last());
    } else {
        lemma_weight_part(histograms, clusters.drop_last(), i);
        assert(clusters.remove(i).drop_last() =~= clusters.drop_last().remove(i));
    }
}

/// Weights are not negative.
proof fn lemma_weight_positive(histograms: Seq<Histogram>, clusters: Seq<usize>)
    ensures
        weight(histograms, clusters) >= 0,
    decreases clusters.len(),
{
    if clusters.len() > 0 {
        lemma_weight_positive(histograms, clusters.drop_last());
    }
}

/// Weights depend on their own clusters alone.
proof fn lemma_weight_frame(before: Seq<Histogram>, after: Seq<Histogram>, clusters: Seq<usize>)
    requires
        forall|i: int|
            0 <= i < clusters.len() ==> before[#[trigger] clusters[i] as int].total
                == after[clusters[i] as int].total,
    ensures
        weight(before, clusters) == weight(after, clusters),
    decreases clusters.len(),
{
    if clusters.len() > 0 {
        assert forall|i: int| 0 <= i < clusters.drop_last().len() implies before[
            #[trigger] clusters.drop_last()[i] as int].total == after[clusters.drop_last()[i] as int].total by {
            assert(clusters[i] == clusters.drop_last()[i]);
        }
        lemma_weight_frame(before, after, clusters.drop_last());
        assert(before[clusters[clusters.len() - 1] as int].total == after[clusters[clusters.len()
            - 1] as int].total);
    }
}

/// The ids after one cluster was merged into another.
pub open spec fn merged_id(id: usize, keep: usize, gone: usize) -> usize {
    if id == gone {
        keep
    } else {
        id
    }
}

/// Merges the cluster at place `j` into the one at place `i`: its counts and its
/// blocks go over, and it is a cluster no more.
fn merge_pair(
    histograms: &mut Vec<Histogram>,
    symbols: &mut Vec<usize>,
    clusters: &mut Vec<usize>,
    i: usize,
    j: usize,
    Ghost(alphabet): Ghost<int>,
)
    requires
        i < j < old(clusters)@.len(),
        clusters_ok(old(clusters)@, old(histograms)@.len() as int),
        histograms_ok(old(histograms)@, alphabet),
        weight(old(histograms)@, old(clusters)@) <= MAX_STREAM,
    ensures
        final(clusters)@ == old(clusters)@.remove(j as int),
        clusters_ok(final(clusters)@, final(histograms)@.len() as int),
        final(histograms)@.len() == old(histograms)@.len(),
        histograms_ok(final(histograms)@, alphabet),
        weight(final(histograms)@, final(clusters)@) == weight(old(histograms)@, old(clusters)@),
        final(symbols)@.len() == old(symbols)@.len(),
        forall|k: int|
            0 <= k < old(symbols)@.len() ==> #[trigger] final(symbols)@[k] == merged_id(
                old(symbols)@[k],
                old(clusters)@[i as int],
                old(clusters)@[j as int],
            ),
        forall|s: int|
            0 <= s < alphabet ==> #[trigger] final(histograms)@[old(clusters)@[i as int] as int]@[s]
                == old(histograms)@[old(clusters)@[i as int] as int]@[s] + old(histograms)@[old(clusters)@[j as int] as int]@[s],
        forall|k: int|
            0 <= k < old(histograms)@.len() && k != old(clusters)@[i as int]
                ==> #[trigger] final(histograms)@[k] == old(histograms)@[k],
{
    let ghost held = histograms@;
    let ghost places = clusters@;
    let ghost named = symbols@;
    let keep: usize = clusters[i];
    let gone: usize = clusters[j];
    proof {
        assert(places[i as int] < held.len() && places[j as int] < held.len());
        assert(histogram_ok(held[keep as int], alphabet));
        assert(histogram_ok(held[gone as int], alphabet));
        lemma_weight_part(held, places, j as int);
        assert(places.remove(j as int)[i as int] == keep);
        lemma_weight_part(held, places.remove(j as int), i as int);
    }
    let other = histograms[gone].copy();
    let mut histogram = Histogram::new(0);
    std::mem::swap(&mut histogram, &mut histograms[keep]);
    histogram.add_histogram(&other);
    histograms.set(keep, histogram);
    let _ = clusters.remove(j);
    proof {
        let rest = places.remove(j as int);
        assert(clusters@ =~= rest);
        assert forall|k: int| 0 <= k < held.len() implies #[trigger] histogram_ok(
            histograms@[k],
            alphabet,
        ) by {
            assert(histogram_ok(held[k], alphabet));
        }
        assert forall|k: int| 0 <= k < rest.len() implies #[trigger] rest[k] < held.len() by {
            assert(rest[k] == if k < j {
                places[k]
            } else {
                places[k + 1]
            });
        }
        assert(rest.no_duplicates());
        let apart = rest.remove(i as int);
        lemma_weight_part(histograms@, rest, i as int);
        assert forall|k: int| 0 <= k < apart.len() implies held[#[trigger] apart[k] as int].total
            == histograms@[apart[k] as int].total by {
            assert(apart[k] == if k < i {
                rest[k]
            } else {
                rest[k + 1]
            });
            assert(apart[k] != keep);
        }
        lemma_weight_frame(held, histograms@, apart);
    }
    let mut k: usize = 0;
    while k < symbols.len()
        invariant
            symbols@.len() == named.len(),
            k <= named.len(),
            forall|m: int|
                0 <= m < k ==> #[trigger] symbols@[m] == merged_id(named[m], keep, gone),
            forall|m: int| k <= m < named.len() ==> #[trigger] symbols@[m] == named[m],
        decreases named.len() - k,
    {
        if symbols[k] == gone {
            symbols.set(k, keep);
        }
        k += 1;
    }
}

/// Every block belongs to a cluster.
pub open spec fn assigned(symbols: Seq<usize>, clusters: Seq<usize>) -> bool {
    forall|k: int| 0 <= k < symbols.len() ==> clusters.contains(#[trigger] symbols[k])
}

/// Histograms, the one every block went into, and those that are clusters still.
pub struct Clustering {
    /// The counts of the histograms.
    pub counts: Seq<Seq<u32>>,
    /// For every block its histogram.
    pub symbols: Seq<usize>,
    /// The histograms that are clusters still.
    pub clusters: Seq<usize>,
}

/// Two lists of counts, place by place.
pub open spec fn summed(left: Seq<u32>, right: Seq<u32>) -> Seq<u32> {
    Seq::new(left.len(), |s: int| (left[s] + right[s]) as u32)
}

/// The clustering once the cluster at place `j` went into the one at place `i`.
pub open spec fn merged_clusters(state: Clustering, i: int, j: int) -> Clustering {
    let keep = state.clusters[i];
    let gone = state.clusters[j];
    Clustering {
        counts: state.counts.update(
            keep as int,
            summed(state.counts[keep as int], state.counts[gone as int]),
        ),
        symbols: state.symbols.map_values(|id: usize| merged_id(id, keep, gone)),
        clusters: state.clusters.remove(j),
    }
}

/// The places of the clusters to merge next: those it pays to merge, or the first
/// two while there are too many.
pub open spec fn next_pair<C: SplitCosts>(costs: &C, limit: int, state: Clustering) -> Option<(int, int)> {
    let wanted = costs.merge_of(state.counts, state.symbols, state.clusters, limit);
    if wanted is Some && (wanted->0).0 < (wanted->0).1 < state.clusters.len() {
        Some(((wanted->0).0 as int, (wanted->0).1 as int))
    } else if state.clusters.len() > limit {
        Some((0, 1))
    } else {
        None
    }
}

/// The clustering once clusters were merged as long as it pays, and on until no more
/// than `limit` are left.
pub open spec fn combined<C: SplitCosts>(costs: &C, limit: int, state: Clustering) -> Clustering
    decreases state.clusters.len(),
{
    if state.clusters.len() <= 1 {
        state
    } else {
        match next_pair(costs, limit, state) {
            None => state,
            Some((i, j)) => if 0 <= j < state.clusters.len() {
                combined(costs, limit, merged_clusters(state, i, j))
            } else {
                state
            },
        }
    }
}

/// A clustering as it stands.
pub open spec fn standing(
    histograms: Seq<Histogram>,
    symbols: Seq<usize>,
    clusters: Seq<usize>,
) -> Clustering {
    Clustering { counts: counts_of(histograms), symbols, clusters }
}

/// Merges clusters as long as it pays, and on until no more than `limit` are
/// left.
pub fn combine<C: SplitCosts>(
    costs: &C,
    histograms: &mut Vec<Histogram>,
    symbols: &mut Vec<usize>,
    clusters: &mut Vec<usize>,
    limit: usize,
    alphabet: usize,
)
    requires
        1 <= limit,
        0 < old(clusters)@.len(),
        clusters_ok(old(clusters)@, old(histograms)@.len() as int),
        histograms_ok(old(histograms)@, alphabet as int),
        assigned(old(symbols)@, old(clusters)@),
        weight(old(histograms)@, old(clusters)@) <= MAX_STREAM,
    ensures
        0 < final(clusters)@.len() <= old(clusters)@.len(),
        final(clusters)@.len() <= limit,
        standing(final(histograms)@, final(symbols)@, final(clusters)@) == combined(
            costs,
            limit as int,
            standing(old(histograms)@, old(symbols)@, old(clusters)@),
        ),
        clusters_ok(final(clusters)@, final(histograms)@.len() as int),
        final(histograms)@.len() == old(histograms)@.len(),
        histograms_ok(final(histograms)@, alphabet as int),
        weight(final(histograms)@, final(clusters)@) == weight(old(histograms)@, old(clusters)@),
        final(symbols)@.len() == old(symbols)@.len(),
        assigned(final(symbols)@, final(clusters)@),
        forall|a: int, b: int|
            0 <= a < old(symbols)@.len() && 0 <= b < old(symbols)@.len() && old(symbols)@[a] == old(symbols)@[b] ==> #[trigger] final(symbols)@[a] == #[trigger] final(symbols)@[b],
{
    let ghost first = symbols@;
    let ghost held = weight(histograms@, clusters@);
    let ghost many = clusters@.len();
    let ghost whole = combined(
        costs,
        limit as int,
        standing(histograms@, symbols@, clusters@),
    );
    while clusters.len() > 1
        invariant_except_break
            combined(costs, limit as int, standing(histograms@, symbols@, clusters@)) == whole,
        invariant
            1 <= limit,
            0 < clusters@.len() <= many,
            clusters_ok(clusters@, histograms@.len() as int),
            histograms@.len() == old(histograms)@.len(),
            histograms_ok(histograms@, alphabet as int),
            weight(histograms@, clusters@) == held,
            held <= MAX_STREAM,
            symbols@.len() == first.len(),
            assigned(symbols@, clusters@),
            forall|a: int, b: int|
                0 <= a < first.len() && 0 <= b < first.len() && first[a] == first[b]
                    ==> #[trigger] symbols@[a] == #[trigger] symbols@[b],
        ensures
            clusters@.len() <= limit,
            standing(histograms@, symbols@, clusters@) == whole,
        decreases clusters@.len(),
    {
        let mut i: usize = 0;
        let mut j: usize = 1;
        let wanted = costs.next_merge(
            histograms.as_slice(),
            symbols.as_slice(),
            clusters.as_slice(),
            limit,
        );
        let mut pays: bool = false;
        if let Some((a, b)) = wanted {
            if a < b && b < clusters.len() {
                i = a;
                j = b;
                pays = true;
            }
        }
        if !pays && clusters.len() <= limit {
            break;
        }
        let ghost places = clusters@;
        let ghost named = symbols@;
        let ghost state = standing(histograms@, symbols@, clusters@);
        assert(histogram_ok(histograms@[places[i as int] as int], alphabet as int));
        assert(next_pair(costs, limit as int, state) == Some((i as int, j as int)));
        merge_pair(histograms, symbols, clusters, i, j, Ghost(alphabet as int));
        proof {
            let after = merged_clusters(state, i as int, j as int);
            let keep = places[i as int] as int;
            let gone = places[j as int] as int;
            assert(histogram_ok(histograms@[keep], alphabet as int));
            assert(histograms@[keep]@ =~= after.counts[keep]);
            assert(counts_of(histograms@) =~= after.counts);
            assert(symbols@ =~= after.symbols);
            assert forall|k: int| 0 <= k < symbols@.len() implies clusters@.contains(
                #[trigger] symbols@[k],
            ) by {
                assert(places.contains(named[k]));
                let m = places.index_of(named[k]);
                if m == j {
                    assert(clusters@[i as int] == symbols@[k]);
                } else if m < j {
                    assert(clusters@[m] == symbols@[k]);
                } else {
                    assert(clusters@[m - 1] == symbols@[k]);
                }
            }
            assert forall|a: int, b: int|
                0 <= a < first.len() && 0 <= b < first.len() && first[a] == first[b] implies
                #[trigger] symbols@[a] == #[trigger] symbols@[b] by {
                assert(named[a] == named[b]);
            }
        }
    }
}

/// How many symbols a list of histograms counts.
pub open spec fn mass(histograms: Seq<Histogram>) -> int
    decreases histograms.len(),
{
    if histograms.len() == 0 {
        0
    } else {
        mass(histograms.drop_last()) + histograms.last().total
    }
}

/// The first numbers in order.
pub open spec fn first_numbers(n: int) -> Seq<usize> {
    Seq::new(n as nat, |i: int| i as usize)
}

/// All the histograms weigh what they count.
proof fn lemma_whole_weight(histograms: Seq<Histogram>, n: int)
    requires
        0 <= n <= histograms.len() <= usize::MAX,
    ensures
        weight(histograms, first_numbers(n)) == mass(histograms.take(n)),
    decreases n,
{
    if n > 0 {
        lemma_whole_weight(histograms, n - 1);
        assert(first_numbers(n).drop_last() =~= first_numbers(n - 1));
        assert(histograms.take(n).drop_last() =~= histograms.take(n - 1));
    }
}

/// Returns the first `n` numbers.
fn numbers_to(n: usize) -> (numbers: Vec<usize>)
    ensures
        numbers@ == first_numbers(n as int),
        clusters_ok(numbers@, n as int),
{
    let mut numbers: Vec<usize> = Vec::new();
    while numbers.len() < n
        invariant
            numbers@.len() <= n,
            forall|i: int| 0 <= i < numbers@.len() ==> #[trigger] numbers@[i] == i,
        decreases n - numbers@.len(),
    {
        let next: usize = numbers.len();
        numbers.push(next);
    }
    assert(numbers@ =~= first_numbers(n as int));
    numbers
}

/// The histogram of a stretch of the stream.
fn block_histogram(data: &[u16], from: usize, len: usize, alphabet: usize) -> (histogram: Histogram)
    requires
        from + len <= data@.len() <= MAX_STREAM,
        within(data@, alphabet as int),
    ensures
        histogram_ok(histogram, alphabet as int),
        histogram.total == len,
        forall|s: int|
            0 <= s < alphabet ==> #[trigger] histogram@[s] == occurrences(
                data@.subrange(from as int, from + len),
                s,
            ),
{
    let block = &data[from..from + len];
    assert forall|i: int| 0 <= i < block@.len() implies #[trigger] block@[i] < alphabet by {
        assert(block@[i] == data@[from + i]);
    }
    let mut histogram = Histogram::new(alphabet);
    add_vector(&mut histogram, block);
    histogram
}

/// Where a block starts: after those before it.
pub open spec fn starts_at(lengths: Seq<u32>, k: int) -> int
    decreases k,
{
    if k <= 0 {
        0
    } else {
        starts_at(lengths, k - 1) + lengths[k - 1]
    }
}

/// Blocks start in order.
proof fn lemma_starts_grow(lengths: Seq<u32>, i: int, j: int)
    requires
        0 <= i <= j,
    ensures
        0 <= starts_at(lengths, i) <= starts_at(lengths, j),
    decreases j,
{
    if i < j {
        lemma_starts_grow(lengths, i, j - 1);
    } else if i > 0 {
        lemma_starts_grow(lengths, i - 1, i - 1);
    }
}

/// The counts of a block of the stream.
pub open spec fn block_counts(data: Seq<u16>, lengths: Seq<u32>, alphabet: int, k: int) -> Seq<u32> {
    let from = starts_at(lengths, k);
    Seq::new(
        alphabet as nat,
        |s: int| occurrences(data.subrange(from, from + lengths[k]), s) as u32,
    )
}

/// How many blocks the batch from one on has.
pub open spec fn batch_size(num_blocks: int, index: int) -> int {
    if num_blocks - index < HISTOGRAMS_PER_BATCH {
        num_blocks - index
    } else {
        HISTOGRAMS_PER_BATCH as int
    }
}

/// A batch of blocks, clustered among themselves.
pub open spec fn batch_at<C: SplitCosts>(
    costs: &C,
    data: Seq<u16>,
    lengths: Seq<u32>,
    alphabet: int,
    index: int,
) -> Clustering {
    let many = batch_size(lengths.len() as int, index);
    combined(
        costs,
        HISTOGRAMS_PER_BATCH as int,
        Clustering {
            counts: Seq::new(many as nat, |k: int| block_counts(data, lengths, alphabet, index + k)),
            symbols: first_numbers(many),
            clusters: first_numbers(many),
        },
    )
}

/// The counts of the clusters of a batch.
pub open spec fn survivors(batch: Clustering) -> Seq<Seq<u32>> {
    Seq::new(batch.clusters.len(), |j: int| batch.counts[batch.clusters[j] as int])
}

/// The clusters of a batch's blocks, numbered after those before.
pub open spec fn placed(batch: Clustering, base: int, many: int) -> Seq<usize> {
    Seq::new(
        many as nat,
        |j: int| (base + batch.clusters.index_of(batch.symbols[j])) as usize,
    )
}

/// The clusters of the batches from a block on, after some others.
pub open spec fn batched<C: SplitCosts>(
    costs: &C,
    data: Seq<u16>,
    lengths: Seq<u32>,
    alphabet: int,
    index: int,
    all: Seq<Seq<u32>>,
    symbols: Seq<usize>,
) -> (Seq<Seq<u32>>, Seq<usize>)
    decreases lengths.len() - index,
{
    if index >= lengths.len() {
        (all, symbols)
    } else {
        let many = batch_size(lengths.len() as int, index);
        let batch = batch_at(costs, data, lengths, alphabet, index);
        batched(
            costs,
            data,
            lengths,
            alphabet,
            index + many,
            all + survivors(batch),
            symbols + placed(batch, all.len() as int, many),
        )
    }
}

/// The blocks of a stream, found and clustered in batches: histograms, and for
/// every block the histogram it went into.
fn cluster_batches<C: SplitCosts>(
    data: &[u16],
    lengths: &Vec<u32>,
    alphabet: usize,
    costs: &C,
) -> (out: (Vec<Histogram>, Vec<usize>))
    requires
        data@.len() <= MAX_STREAM,
        within(data@, alphabet as int),
        0 < lengths@.len(),
        starts_at(lengths@, lengths@.len() as int) == data@.len(),
    ensures
        histograms_ok(out.0@, alphabet as int),
        (counts_of(out.0@), out.1@) == batched(
            costs,
            data@,
            lengths@,
            alphabet as int,
            0,
            Seq::empty(),
            Seq::empty(),
        ),
        mass(out.0@) == data@.len(),
        out.1@.len() == lengths@.len(),
        0 < out.0@.len() <= lengths@.len(),
        forall|k: int| 0 <= k < out.1@.len() ==> #[trigger] out.1@[k] < out.0@.len(),
{
    let num_blocks: usize = lengths.len();
    let mut all: Vec<Histogram> = Vec::new();
    let mut symbols: Vec<usize> = Vec::new();
    let mut pos: usize = 0;
    let mut index: usize = 0;
    let ghost whole = batched(
        costs,
        data@,
        lengths@,
        alphabet as int,
        0,
        Seq::empty(),
        Seq::empty(),
    );
    proof {
        assert(counts_of(all@) =~= Seq::empty());
        assert(symbols@ =~= Seq::empty());
    }
    while index < num_blocks
        invariant
            batched(
                costs,
                data@,
                lengths@,
                alphabet as int,
                index as int,
                counts_of(all@),
                symbols@,
            ) == whole,
            data@.len() <= MAX_STREAM,
            within(data@, alphabet as int),
            num_blocks == lengths@.len(),
            starts_at(lengths@, num_blocks as int) == data@.len(),
            index <= num_blocks,
            pos == starts_at(lengths@, index as int),
            histograms_ok(all@, alphabet as int),
            mass(all@) == pos,
            symbols@.len() == index,
            index > 0 ==> all@.len() > 0,
            all@.len() <= index,
            forall|k: int| 0 <= k < index ==> #[trigger] symbols@[k] < all@.len(),
        decreases num_blocks - index,
    {
        let many: usize = if num_blocks - index < HISTOGRAMS_PER_BATCH {
            num_blocks - index
        } else {
            HISTOGRAMS_PER_BATCH
        };
        let ghost from = pos as int;
        let ghost before = counts_of(all@);
        let ghost named = symbols@;
        let mut batch: Vec<Histogram> = Vec::new();
        while batch.len() < many
            invariant
                data@.len() <= MAX_STREAM,
                within(data@, alphabet as int),
                num_blocks == lengths@.len(),
                starts_at(lengths@, num_blocks as int) == data@.len(),
                index + many <= num_blocks,
                batch@.len() <= many,
                pos == starts_at(lengths@, index + batch@.len()),
                from == starts_at(lengths@, index as int),
                histograms_ok(batch@, alphabet as int),
                mass(batch@) == pos - from,
                forall|k: int|
                    0 <= k < batch@.len() ==> (#[trigger] batch@[k])@ == block_counts(
                        data@,
                        lengths@,
                        alphabet as int,
                        index + k,
                    ),
            decreases many - batch@.len(),
        {
            let block: usize = index + batch.len();
            let len: usize = lengths[block] as usize;
            let ghost held = batch@;
            proof {
                lemma_starts_grow(lengths@, block + 1, num_blocks as int);
            }
            let histogram = block_histogram(data, pos, len, alphabet);
            batch.push(histogram);
            pos += len;
            proof {
                assert(histogram@ =~= block_counts(data@, lengths@, alphabet as int, block as int));
                assert(batch@.drop_last() =~= held);
                assert forall|k: int| 0 <= k < batch@.len() implies #[trigger] histogram_ok(
                    batch@[k],
                    alphabet as int,
                ) by {
                    if k < held.len() {
                        assert(histogram_ok(held[k], alphabet as int));
                    }
                }
            }
        }
        let mut local: Vec<usize> = numbers_to(many);
        let mut clusters: Vec<usize> = numbers_to(many);
        proof {
            lemma_starts_grow(lengths@, 0, index as int);
            lemma_starts_grow(lengths@, index + many, num_blocks as int);
            lemma_whole_weight(batch@, many as int);
            assert(batch@.take(many as int) =~= batch@);
            assert forall|k: int| 0 <= k < local@.len() implies clusters@.contains(
                #[trigger] local@[k],
            ) by {
                assert(clusters@[k] == local@[k]);
            }
        }
        let ghost start = standing(batch@, local@, clusters@);
        proof {
            assert(start.counts =~= Seq::new(
                many as nat,
                |k: int| block_counts(data@, lengths@, alphabet as int, index + k),
            ));
        }
        combine(costs, &mut batch, &mut local, &mut clusters, HISTOGRAMS_PER_BATCH, alphabet);
        let ghost made = standing(batch@, local@, clusters@);
        assert(made == batch_at(costs, data@, lengths@, alphabet as int, index as int));
        let base: usize = all.len();
        let mut remap: Vec<usize> = vec![0; many];
        assert(counts_of(all@) =~= before + survivors(made).take(0));
        let mut j: usize = 0;
        while j < clusters.len()
            invariant
                j <= clusters@.len(),
                clusters_ok(clusters@, batch@.len() as int),
                batch@.len() == many,
                remap@.len() == many,
                histograms_ok(batch@, alphabet as int),
                histograms_ok(all@, alphabet as int),
                all@.len() == base + j,
                before.len() == base,
                made == standing(batch@, local@, clusters@),
                counts_of(all@) == before + survivors(made).take(j as int),
                mass(all@) == from + weight(batch@, clusters@.take(j as int)),
                forall|k: int| 0 <= k < j ==> remap@[#[trigger] clusters@[k] as int] == k,
            decreases clusters@.len() - j,
        {
            let cluster: usize = clusters[j];
            assert(clusters@[j as int] < batch@.len());
            assert(histogram_ok(batch@[cluster as int], alphabet as int));
            let ghost held = all@;
            all.push(batch[cluster].copy());
            remap.set(cluster, j);
            proof {
                assert(counts_of(all@) =~= counts_of(held).push(batch@[cluster as int]@));
                assert(survivors(made).take(j + 1) =~= survivors(made).take(j as int).push(
                    batch@[cluster as int]@,
                ));
                assert(counts_of(all@) =~= before + survivors(made).take(j + 1));
                assert(all@.drop_last() =~= held);
                assert(clusters@.take(j + 1).drop_last() =~= clusters@.take(j as int));
                assert forall|k: int| 0 <= k < all@.len() implies #[trigger] histogram_ok(
                    all@[k],
                    alphabet as int,
                ) by {
                    if k < held.len() {
                        assert(histogram_ok(held[k], alphabet as int));
                    }
                }
            }
            j += 1;
        }
        assert(clusters@.take(clusters@.len() as int) =~= clusters@);
        assert(survivors(made).take(clusters@.len() as int) =~= survivors(made));
        assert(named + placed(made, base as int, many as int).take(0) =~= named);
        let total: usize = all.len();
        j = 0;
        while j < many
            invariant
                j <= many,
                local@.len() == many,
                remap@.len() == many,
                batch@.len() == many,
                clusters_ok(clusters@, batch@.len() as int),
                assigned(local@, clusters@),
                total == base + clusters@.len(),
                all@.len() == total,
                symbols@.len() == index + j,
                named.len() == index,
                made == standing(batch@, local@, clusters@),
                symbols@ == named + placed(made, base as int, many as int).take(j as int),
                forall|k: int|
                    0 <= k < clusters@.len() ==> remap@[#[trigger] clusters@[k] as int] == k,
                forall|k: int| 0 <= k < index + j ==> #[trigger] symbols@[k] < all@.len(),
            decreases many - j,
        {
            proof {
                assert(clusters@.contains(local@[j as int]));
                let k = clusters@.index_of(local@[j as int]);
                assert(clusters@[k] == local@[j as int]);
            }
            symbols.push(base + remap[local[j]]);
            assert(symbols@ =~= named + placed(made, base as int, many as int).take(j + 1));
            j += 1;
        }
        proof {
            let numbers = placed(made, base as int, many as int);
            assert(numbers.take(many as int) =~= numbers);
        }
        index += many;
    }
    (all, symbols)
}

/// The cheapest cluster for a block, from a place on, against the best so far.
pub open spec fn cheapest<C: SplitCosts>(
    costs: &C,
    block: Seq<u32>,
    counts: Seq<Seq<u32>>,
    clusters: Seq<usize>,
    j: int,
    best: usize,
    bits: C::Price,
) -> usize
    decreases clusters.len() - j,
{
    if j < 0 || j >= clusters.len() {
        best
    } else {
        let moved = costs.move_of(block, counts[clusters[j] as int]);
        let lower = costs.below_of(moved, bits);
        cheapest(
            costs,
            block,
            counts,
            clusters,
            j + 1,
            if lower {
                clusters[j]
            } else {
                best
            },
            if lower {
                moved
            } else {
                bits
            },
        )
    }
}

/// The histograms the first blocks are assigned: the cheapest surviving one, and
/// among equally good ones that of the block before.
pub open spec fn assignment<C: SplitCosts>(
    costs: &C,
    data: Seq<u16>,
    lengths: Seq<u32>,
    alphabet: int,
    state: Clustering,
    index: int,
) -> Seq<usize>
    decreases index,
{
    if index <= 0 {
        Seq::empty()
    } else {
        let before = assignment(costs, data, lengths, alphabet, state, index - 1);
        let block = block_counts(data, lengths, alphabet, index - 1);
        let first = if index == 1 {
            state.symbols[0]
        } else {
            before.last()
        };
        before.push(
            cheapest(
                costs,
                block,
                state.counts,
                state.clusters,
                0,
                first,
                costs.move_of(block, state.counts[first as int]),
            ),
        )
    }
}

/// Assigns each block the cheapest surviving histogram.
///
/// Among equally good ones the histogram of the block before is preferred, which
/// makes the stream of block types cheap.
fn assign_blocks<C: SplitCosts>(
    data: &[u16],
    lengths: &Vec<u32>,
    alphabet: usize,
    histograms: &Vec<Histogram>,
    symbols: &Vec<usize>,
    clusters: &Vec<usize>,
    costs: &C,
) -> (chosen: Vec<usize>)
    requires
        data@.len() <= MAX_STREAM,
        within(data@, alphabet as int),
        0 < lengths@.len(),
        symbols@.len() == lengths@.len(),
        starts_at(lengths@, lengths@.len() as int) == data@.len(),
        clusters_ok(clusters@, histograms@.len() as int),
        assigned(symbols@, clusters@),
    ensures
        chosen@.len() == lengths@.len(),
        assigned(chosen@, clusters@),
        chosen@ == assignment(
            costs,
            data@,
            lengths@,
            alphabet as int,
            standing(histograms@, symbols@, clusters@),
            lengths@.len() as int,
        ),
{
    let num_blocks: usize = lengths.len();
    let mut chosen: Vec<usize> = Vec::new();
    let mut pos: usize = 0;
    let mut index: usize = 0;
    let ghost state = standing(histograms@, symbols@, clusters@);
    assert(chosen@ =~= Seq::empty());
    while index < num_blocks
        invariant
            state == standing(histograms@, symbols@, clusters@),
            chosen@ == assignment(
                costs,
                data@,
                lengths@,
                alphabet as int,
                state,
                index as int,
            ),
            data@.len() <= MAX_STREAM,
            within(data@, alphabet as int),
            num_blocks == lengths@.len(),
            symbols@.len() == lengths@.len(),
            starts_at(lengths@, num_blocks as int) == data@.len(),
            clusters_ok(clusters@, histograms@.len() as int),
            assigned(symbols@, clusters@),
            index <= num_blocks,
            pos == starts_at(lengths@, index as int),
            chosen@.len() == index,
            assigned(chosen@, clusters@),
        decreases num_blocks - index,
    {
        let len: usize = lengths[index] as usize;
        proof {
            lemma_starts_grow(lengths@, index + 1, num_blocks as int);
        }
        let block = block_histogram(data, pos, len, alphabet);
        pos += len;
        assert(block@ =~= block_counts(data@, lengths@, alphabet as int, index as int));
        let mut best: usize = if index == 0 {
            symbols[0]
        } else {
            chosen[index - 1]
        };
        proof {
            assert(clusters@.contains(best));
            let k = clusters@.index_of(best);
            assert(clusters@[k] < histograms@.len());
        }
        let mut bits = costs.move_cost(&block, &histograms[best]);
        let mut j: usize = 0;
        let ghost whole = cheapest(
            costs,
            block@,
            state.counts,
            clusters@,
            0,
            best,
            bits,
        );
        while j < clusters.len()
            invariant
                state == standing(histograms@, symbols@, clusters@),
                cheapest(costs, block@, state.counts, clusters@, j as int, best, bits) == whole,
                j <= clusters@.len(),
                clusters_ok(clusters@, histograms@.len() as int),
                clusters@.contains(best),
            decreases clusters@.len() - j,
        {
            let cluster: usize = clusters[j];
            assert(clusters@[j as int] < histograms@.len());
            let moved = costs.move_cost(&block, &histograms[cluster]);
            if costs.below(moved, bits) {
                bits = moved;
                best = cluster;
            }
            j += 1;
        }
        let ghost held = chosen@;
        chosen.push(best);
        proof {
            assert forall|k: int| 0 <= k < chosen@.len() implies clusters@.contains(
                #[trigger] chosen@[k],
            ) by {
                if k < held.len() {
                    assert(clusters@.contains(held[k]));
                }
            }
        }
        index += 1;
    }
    chosen
}

/// Neighbouring blocks of one type joined.
pub open spec fn joined(types: Seq<usize>, lengths: Seq<int>) -> Seq<(int, int)>
    decreases types.len(),
{
    if types.len() == 0 {
        Seq::empty()
    } else {
        let before = joined(types.drop_last(), lengths.drop_last());
        if types.len() >= 2 && types.last() == types[types.len() - 2] {
            before.update(before.len() - 1, (before.last().0, before.last().1 + lengths.last()))
        } else {
            before.push((types.last() as int, lengths.last()))
        }
    }
}

/// The lengths of joined blocks.
pub open spec fn joined_length(blocks: Seq<(int, int)>) -> int
    decreases blocks.len(),
{
    if blocks.len() == 0 {
        0
    } else {
        joined_length(blocks.drop_last()) + blocks.last().1
    }
}

/// A block's type differs from the next one's.
pub open spec fn changes_at(blocks: Seq<(int, int)>, k: int) -> bool {
    blocks[k].0 != blocks[k + 1].0
}

/// Joining keeps the length, and leaves no two neighbours alike.
pub proof fn lemma_joined(types: Seq<usize>, lengths: Seq<int>)
    requires
        types.len() == lengths.len(),
        forall|i: int| 0 <= i < lengths.len() ==> 1 <= #[trigger] lengths[i],
    ensures
        joined_length(joined(types, lengths)) == runs::total(lengths),
        types.len() > 0 ==> joined(types, lengths).len() > 0 && joined(types, lengths).last().0
            == types.last(),
        forall|k: int|
            0 <= k < joined(types, lengths).len() ==> 1 <= (#[trigger] joined(types, lengths)[k]).1,
        forall|k: int|
            0 <= k < joined(types, lengths).len() - 1 ==> #[trigger] changes_at(
                joined(types, lengths),
                k,
            ),
        joined(types, lengths).len() <= types.len(),
    decreases types.len(),
{
    if types.len() > 0 {
        let shorter = types.drop_last();
        let fewer = lengths.drop_last();
        assert forall|i: int| 0 <= i < fewer.len() implies 1 <= #[trigger] fewer[i] by {
            assert(lengths[i] >= 1);
        }
        lemma_joined(shorter, fewer);
        let before = joined(shorter, fewer);
        let now = joined(types, lengths);
        assert(lengths[lengths.len() - 1] >= 1);
        let extends = types.len() >= 2 && types.last() == types[types.len() - 2];
        if extends {
            assert(shorter.last() == types.last());
            assert(now.drop_last() =~= before.drop_last());
        } else {
            assert(now.drop_last() =~= before);
        }
        assert forall|k: int| 0 <= k < now.len() - 1 implies #[trigger] changes_at(now, k) by {
            if k < before.len() - 1 {
                assert(changes_at(before, k));
            } else {
                assert(shorter.last() == types[types.len() - 2]);
            }
        }
    }
}

/// A type is among some.
pub open spec fn type_among(types: Seq<usize>, t: int) -> bool {
    exists|i: int| 0 <= i < types.len() && #[trigger] types[i] == t
}

/// A type is that of some joined block.
pub open spec fn joined_among(blocks: Seq<(int, int)>, t: int) -> bool {
    exists|k: int| 0 <= k < blocks.len() && (#[trigger] blocks[k]).0 == t
}

/// Joining keeps every type.
pub proof fn lemma_joined_types(types: Seq<usize>, lengths: Seq<int>, t: int)
    requires
        types.len() == lengths.len(),
    ensures
        joined_among(joined(types, lengths), t) == type_among(types, t),
        types.len() > 0 ==> joined(types, lengths).len() > 0 && joined(types, lengths).last().0
            == types.last(),
    decreases types.len(),
{
    let now = joined(types, lengths);
    if types.len() > 0 {
        let shorter = types.drop_last();
        let before = joined(shorter, lengths.drop_last());
        lemma_joined_types(shorter, lengths.drop_last(), t);
        if type_among(types, t) {
            let i = choose|i: int| 0 <= i < types.len() && #[trigger] types[i] == t;
            if i < shorter.len() {
                assert(shorter[i] == t);
                let k = choose|k: int| 0 <= k < before.len() && (#[trigger] before[k]).0 == t;
                assert(now[k].0 == t);
            } else {
                assert(now[now.len() - 1].0 == t);
            }
        }
        if joined_among(now, t) {
            let k = choose|k: int| 0 <= k < now.len() && (#[trigger] now[k]).0 == t;
            if k < before.len() {
                assert(before[k].0 == t);
                let i = choose|i: int| 0 <= i < shorter.len() && #[trigger] shorter[i] == t;
                assert(types[i] == t);
            } else {
                assert(types[types.len() - 1] == t);
            }
        }
    }
}

/// A partition of a stream that the format can express: blocks of positive
/// length that cover it, neighbours of different types, every type used.
pub open spec fn split_ok(split: &BlockSplit, length: int) -> bool {
    &&& split.num_blocks == split.types@.len()
    &&& split.num_blocks == split.lengths@.len()
    &&& 1 <= split.num_types <= MAX_NUMBER_OF_BLOCK_TYPES
    &&& starts_at(split.lengths@, split.lengths@.len() as int) == length
    &&& forall|k: int| 0 <= k < split.lengths@.len() ==> 1 <= #[trigger] split.lengths@[k]
    &&& forall|k: int| 0 <= k < split.types@.len() ==> #[trigger] split.types@[k] < split.num_types
    &&& forall|k: int| 0 <= k < split.types@.len() - 1 ==> #[trigger] switches_at(split.types@, k)
    &&& forall|t: int| 0 <= t < split.num_types ==> #[trigger] uses_type(split.types@, t)
}

/// A block and the next are of different types.
pub open spec fn switches_at(types: Seq<u8>, k: int) -> bool {
    types[k] != types[k + 1]
}

/// Some block has a type.
pub open spec fn uses_type(types: Seq<u8>, t: int) -> bool {
    exists|k: int| 0 <= k < types.len() && #[trigger] types[k] == t
}

/// Writes a partition out, joining neighbours that share a type.
fn write_split(types: &Vec<usize>, lengths: &Vec<u32>, num_types: usize, split: &mut BlockSplit)
    requires
        types@.len() == lengths@.len(),
        num_types <= 256,
        forall|i: int| 0 <= i < types@.len() ==> #[trigger] types@[i] < num_types,
        forall|i: int| 0 <= i < lengths@.len() ==> 1 <= #[trigger] lengths@[i],
        starts_at(lengths@, lengths@.len() as int) <= MAX_STREAM,
    ensures
        final(split).num_types == num_types,
        final(split).num_blocks == final(split).types@.len(),
        final(split).types@.len() == final(split).lengths@.len(),
        ({
            let blocks = joined(types@, lengths@.map_values(|l: u32| l as int));
            &&& final(split).types@.len() == blocks.len()
            &&& forall|k: int|
                0 <= k < blocks.len() ==> #[trigger] final(split).types@[k] == blocks[k].0
            &&& forall|k: int|
                0 <= k < blocks.len() ==> #[trigger] final(split).lengths@[k] == blocks[k].1
        }),
{
    let ghost wide = lengths@.map_values(|l: u32| l as int);
    split.types.clear();
    split.lengths.clear();
    let mut i: usize = 0;
    while i < types.len()
        invariant
            types@.len() == lengths@.len(),
            num_types <= 256,
            wide == lengths@.map_values(|l: u32| l as int),
            forall|j: int| 0 <= j < types@.len() ==> #[trigger] types@[j] < num_types,
            forall|j: int| 0 <= j < lengths@.len() ==> 1 <= #[trigger] lengths@[j],
            starts_at(lengths@, lengths@.len() as int) <= MAX_STREAM,
            i <= types@.len(),
            split.types@.len() == split.lengths@.len(),
            split.types@.len() == joined(types@.take(i as int), wide.take(i as int)).len(),
            forall|k: int|
                0 <= k < split.types@.len() ==> #[trigger] split.types@[k] == joined(
                    types@.take(i as int),
                    wide.take(i as int),
                )[k].0,
            forall|k: int|
                0 <= k < split.types@.len() ==> #[trigger] split.lengths@[k] == joined(
                    types@.take(i as int),
                    wide.take(i as int),
                )[k].1,
            forall|k: int|
                0 <= k < split.types@.len() ==> #[trigger] split.lengths@[k] <= starts_at(
                    lengths@,
                    i as int,
                ),
        decreases types@.len() - i,
    {
        proof {
            let shorter = types@.take(i as int);
            let fewer = wide.take(i as int);
            assert(types@.take(i + 1).drop_last() =~= shorter);
            assert(wide.take(i + 1).drop_last() =~= fewer);
            assert forall|j: int| 0 <= j < fewer.len() implies 1 <= #[trigger] fewer[j] by {
                assert(lengths@[j] >= 1);
            }
            lemma_joined(shorter, fewer);
            lemma_starts_grow(lengths@, i as int, i + 1);
            lemma_starts_grow(lengths@, i + 1, lengths@.len() as int);
            assert(types@[i as int] < num_types);
        }
        if i > 0 && types[i] == types[i - 1] {
            let last: usize = split.lengths.len() - 1;
            let so_far: u32 = split.lengths[last];
            split.lengths.set(last, so_far + lengths[i]);
        } else {
            split.types.push(types[i] as u8);
            split.lengths.push(lengths[i]);
        }
        i += 1;
    }
    assert(types@.take(types@.len() as int) =~= types@);
    assert(wide.take(types@.len() as int) =~= wide);
    split.num_blocks = split.types.len();
    split.num_types = num_types;
}

/// The histograms the blocks of an assignment of ids are coded with in the end: blocks
/// are clustered in batches, the survivors among themselves, and every block then
/// gets the cheapest.
pub open spec fn final_choice<C: SplitCosts>(
    costs: &C,
    data: Seq<u16>,
    lengths: Seq<u32>,
    alphabet: int,
) -> Seq<usize> {
    let (counts, symbols) = batched(
        costs,
        data,
        lengths,
        alphabet,
        0,
        Seq::empty(),
        Seq::empty(),
    );
    let state = combined(
        costs,
        MAX_NUMBER_OF_BLOCK_TYPES as int,
        Clustering { counts, symbols, clusters: first_numbers(counts.len() as int) },
    );
    assignment(costs, data, lengths, alphabet, state, lengths.len() as int)
}

/// Ids numbered in order of appearance.
pub open spec fn numbered(ids: Seq<usize>) -> Seq<usize> {
    Seq::new(ids.len(), |i: int| runs::number_in(runs::appeared(ids), ids[i]) as usize)
}

/// The lengths of the runs of some ids.
pub open spec fn run_lengths_of(ids: Seq<u8>) -> Seq<u32> {
    runs::runs_of(ids).map_values(|len: int| len as u32)
}

/// A partition has these blocks and that many types.
pub open spec fn split_is(split: &BlockSplit, blocks: Seq<(int, int)>, num_types: int) -> bool {
    &&& split.num_types == num_types
    &&& split.num_blocks == blocks.len()
    &&& split.types@.len() == blocks.len()
    &&& split.lengths@.len() == blocks.len()
    &&& forall|k: int| 0 <= k < blocks.len() ==> #[trigger] split.types@[k] == blocks[k].0
    &&& forall|k: int| 0 <= k < blocks.len() ==> #[trigger] split.lengths@[k] == blocks[k].1
}

/// A partition is the one an assignment of ids comes to.
pub open spec fn clustered<C: SplitCosts>(
    costs: &C,
    data: Seq<u16>,
    ids: Seq<u8>,
    alphabet: int,
    split: &BlockSplit,
) -> bool {
    let chosen = final_choice(costs, data, run_lengths_of(ids), alphabet);
    split_is(
        split,
        joined(numbered(chosen), runs::runs_of(ids)),
        runs::appeared(chosen).len() as int,
    )
}

/// Clusters the blocks of an assignment down to the types the format allows and
/// writes the partition.
pub fn cluster_blocks<C: SplitCosts>(
    data: &[u16],
    ids: &Vec<u8>,
    alphabet: usize,
    costs: &C,
    split: &mut BlockSplit,
)
    requires
        0 < data@.len() <= MAX_STREAM,
        data@.len() == ids@.len(),
        within(data@, alphabet as int),
    ensures
        split_ok(final(split), data@.len() as int),
        clustered(costs, data@, ids@, alphabet as int, final(split)),
        final(split).num_blocks <= runs::runs_of(ids@).len(),
{
    let lengths: Vec<u32> = runs::run_lengths(ids.as_slice());
    proof {
        runs::lemma_runs_cover(ids@);
        lemma_starts_total(lengths@, runs::runs_of(ids@), lengths@.len() as int);
        assert(runs::runs_of(ids@).take(lengths@.len() as int) =~= runs::runs_of(ids@));
        assert forall|i: int| 0 <= i < lengths@.len() implies 1 <= #[trigger] lengths@[i] by {
            assert(runs::runs_of(ids@)[i] >= 1);
        }
    }
    assert(lengths@ =~= run_lengths_of(ids@));
    let (mut histograms, mut symbols) = cluster_batches(data, &lengths, alphabet, costs);
    // Everything that survived the batches now competes.
    let mut clusters: Vec<usize> = numbers_to(histograms.len());
    proof {
        lemma_whole_weight(histograms@, histograms@.len() as int);
        assert(histograms@.take(histograms@.len() as int) =~= histograms@);
        assert forall|k: int| 0 <= k < symbols@.len() implies clusters@.contains(
            #[trigger] symbols@[k],
        ) by {
            assert(clusters@[symbols@[k] as int] == symbols@[k]);
        }
    }
    combine(
        costs,
        &mut histograms,
        &mut symbols,
        &mut clusters,
        MAX_NUMBER_OF_BLOCK_TYPES,
        alphabet,
    );
    let chosen = assign_blocks(data, &lengths, alphabet, &histograms, &symbols, &clusters, costs);
    let bound: usize = histograms.len();
    proof {
        assert forall|k: int| 0 <= k < chosen@.len() implies #[trigger] chosen@[k] < bound by {
            assert(clusters@.contains(chosen@[k]));
            let m = clusters@.index_of(chosen@[k]);
            assert(clusters@[m] < histograms@.len());
        }
    }
    let (types, num_types) = runs::renumber(&chosen, bound);
    proof {
        runs::lemma_appeared(chosen@);
        lemma_distinct_among(runs::appeared(chosen@), clusters@, chosen@);
        assert(runs::appeared(chosen@).contains(chosen@[0]));
        assert(num_types >= 1);
    }
    assert(types@ =~= numbered(chosen@));
    write_split(&types, &lengths, num_types, split);
    proof {
        let wide = lengths@.map_values(|l: u32| l as int);
        assert(wide =~= runs::runs_of(ids@));
        assert forall|t: int| 0 <= t < num_types implies #[trigger] type_among(types@, t) by {
            lemma_number_used(chosen@, types@, t);
        }
        lemma_split_ok(split, types@, wide, num_types as int);
    }
}

/// Every number given out is some block's.
proof fn lemma_number_used(chosen: Seq<usize>, types: Seq<usize>, t: int)
    requires
        types.len() == chosen.len(),
        0 <= t < runs::appeared(chosen).len(),
        forall|i: int|
            0 <= i < chosen.len() ==> #[trigger] types[i] < runs::appeared(chosen).len()
                && runs::appeared(chosen)[types[i] as int] == chosen[i],
    ensures
        type_among(types, t),
{
    runs::lemma_appeared(chosen);
    let order = runs::appeared(chosen);
    assert(chosen.contains(order[t]));
    let i = chosen.index_of(order[t]);
    assert(types[i] == t);
}

/// What is written out is a partition the format can express.
proof fn lemma_split_ok(split: &BlockSplit, types: Seq<usize>, wide: Seq<int>, num_types: int)
    requires
        types.len() == wide.len(),
        1 <= num_types <= MAX_NUMBER_OF_BLOCK_TYPES,
        forall|i: int| 0 <= i < wide.len() ==> 1 <= #[trigger] wide[i],
        forall|i: int| 0 <= i < types.len() ==> #[trigger] types[i] < num_types,
        forall|t: int| 0 <= t < num_types ==> #[trigger] type_among(types, t),
        split.num_types == num_types,
        split.num_blocks == split.types@.len(),
        split.types@.len() == split.lengths@.len(),
        split.types@.len() == joined(types, wide).len(),
        forall|k: int|
            0 <= k < split.types@.len() ==> #[trigger] split.types@[k] == joined(types, wide)[k].0,
        forall|k: int|
            0 <= k < split.types@.len() ==> #[trigger] split.lengths@[k] == joined(types, wide)[k].1,
    ensures
        split_ok(split, runs::total(wide)),
        split.num_blocks <= types.len(),
{
    let blocks = joined(types, wide);
    lemma_joined(types, wide);
    lemma_starts_joined(split.lengths@, blocks, blocks.len() as int);
    assert(blocks.take(blocks.len() as int) =~= blocks);
    assert forall|k: int| 0 <= k < split.lengths@.len() implies 1 <= #[trigger] split.lengths@[k] by {
        assert(blocks[k].1 >= 1);
    }
    assert forall|k: int| 0 <= k < split.types@.len() implies #[trigger] split.types@[k]
        < num_types by {
        lemma_joined_types(types, wide, blocks[k].0);
        assert(joined_among(blocks, blocks[k].0));
    }
    assert forall|k: int| 0 <= k < split.types@.len() - 1 implies #[trigger] switches_at(
        split.types@,
        k,
    ) by {
        assert(changes_at(blocks, k));
        assert(split.types@[k] == blocks[k].0 && split.types@[k + 1] == blocks[k + 1].0);
    }
    assert forall|t: int| 0 <= t < num_types implies #[trigger] uses_type(split.types@, t) by {
        assert(type_among(types, t));
        lemma_joined_types(types, wide, t);
        let k = choose|k: int| 0 <= k < blocks.len() && (#[trigger] blocks[k]).0 == t;
        assert(split.types@[k] == t);
    }
}

/// Starts add up the lengths.
proof fn lemma_starts_total(lengths: Seq<u32>, wide: Seq<int>, k: int)
    requires
        0 <= k <= lengths.len(),
        lengths.len() == wide.len(),
        forall|i: int| 0 <= i < lengths.len() ==> #[trigger] lengths[i] == wide[i],
    ensures
        starts_at(lengths, k) == runs::total(wide.take(k)),
    decreases k,
{
    if k > 0 {
        lemma_starts_total(lengths, wide, k - 1);
        assert(wide.take(k).drop_last() =~= wide.take(k - 1));
    }
}

/// Starts add up the lengths of joined blocks.
proof fn lemma_starts_joined(lengths: Seq<u32>, blocks: Seq<(int, int)>, k: int)
    requires
        0 <= k <= lengths.len(),
        lengths.len() == blocks.len(),
        forall|i: int| 0 <= i < lengths.len() ==> #[trigger] lengths[i] == blocks[i].1,
    ensures
        starts_at(lengths, k) == joined_length(blocks.take(k)),
    decreases k,
{
    if k > 0 {
        lemma_starts_joined(lengths, blocks, k - 1);
        assert(blocks.take(k).drop_last() =~= blocks.take(k - 1));
    }
}

/// Distinct ids that are all among some clusters are no more than those.
proof fn lemma_distinct_among(order: Seq<usize>, clusters: Seq<usize>, chosen: Seq<usize>)
    requires
        order.no_duplicates(),
        assigned(chosen, clusters),
        forall|k: int| 0 <= k < order.len() ==> chosen.contains(#[trigger] order[k]),
    ensures
        order.len() <= clusters.len(),
{
    order.unique_seq_to_set();
    vstd::seq_lib::seq_to_set_is_finite(clusters);
    clusters.lemma_cardinality_of_set();
    assert(order.to_set().subset_of(clusters.to_set())) by {
        assert forall|id: usize| order.to_set().contains(id) implies clusters.to_set().contains(
            id,
        ) by {
            let k = order.index_of(id);
            assert(order[k] == id);
            assert(chosen.contains(order[k]));
            let m = chosen.index_of(id);
            assert(clusters.contains(chosen[m]));
        }
    }
    vstd::set_lib::lemma_len_subset(order.to_set(), clusters.to_set());
}

/// How a kind of stream is split.
#[derive(Copy, Clone, Debug, PartialEq, Eq, Structural)]
pub struct SplitPlan {
    /// Symbols of the alphabet.
    pub alphabet: usize,
    /// Symbols one seeded histogram is expected to cover.
    pub symbols_per_histogram: usize,
    /// Most histograms the stream is seeded with.
    pub max_histograms: usize,
    /// Symbols each sample covers.
    pub stride: usize,
    /// How often blocks are searched for and codes rebuilt.
    pub iterations: usize,
}

impl SplitPlan {
    /// The plan is one for a stream.
    pub open spec fn wf(&self) -> bool {
        &&& 1 <= self.symbols_per_histogram
        &&& 1 <= self.max_histograms <= MAX_SEEDED_HISTOGRAMS
        &&& 1 <= self.stride <= 100
        &&& 1 <= self.iterations
    }

    /// The plan for literals.
    pub open spec fn literals_plan(iterations: usize) -> Self {
        SplitPlan {
            alphabet: 256,
            symbols_per_histogram: 544,
            max_histograms: 100,
            stride: 70,
            iterations,
        }
    }

    /// Returns the plan for literals.
    pub fn literals(iterations: usize) -> (plan: Self)
        requires
            1 <= iterations,
        ensures
            plan.wf(),
            plan == Self::literals_plan(iterations),
    {
        SplitPlan {
            alphabet: 256,
            symbols_per_histogram: 544,
            max_histograms: 100,
            stride: 70,
            iterations,
        }
    }

    /// The plan for commands.
    pub open spec fn commands_plan(iterations: usize) -> Self {
        SplitPlan {
            alphabet: 704,
            symbols_per_histogram: 530,
            max_histograms: 50,
            stride: 40,
            iterations,
        }
    }

    /// Returns the plan for commands.
    pub fn commands(iterations: usize) -> (plan: Self)
        requires
            1 <= iterations,
        ensures
            plan.wf(),
            plan == Self::commands_plan(iterations),
    {
        SplitPlan {
            alphabet: 704,
            symbols_per_histogram: 530,
            max_histograms: 50,
            stride: 40,
            iterations,
        }
    }

    /// The plan for distances.
    pub open spec fn distances_plan(iterations: usize) -> Self {
        SplitPlan {
            alphabet: 544,
            symbols_per_histogram: 544,
            max_histograms: 50,
            stride: 40,
            iterations,
        }
    }

    /// Returns the plan for distances.
    pub fn distances(iterations: usize) -> (plan: Self)
        requires
            1 <= iterations,
        ensures
            plan.wf(),
            plan == Self::distances_plan(iterations),
    {
        SplitPlan {
            alphabet: 544,
            symbols_per_histogram: 544,
            max_histograms: 50,
            stride: 40,
            iterations,
        }
    }
}

/// The counts a stream is seeded with, refined.
pub open spec fn seeded_counts(data: Seq<u16>, plan: SplitPlan, num: int) -> Seq<Seq<u32>> {
    let stride = plan.stride as int;
    Seq::new(
        num as nat,
        |k: int|
            Seq::new(
                plan.alphabet as nat,
                |s: int|
                    (occurrences(seed_sample(data, stride, num, k), s) + refined(
                        data,
                        stride,
                        num,
                        passes_for(data.len() as int, stride, num),
                        k,
                        s,
                    )) as u32,
            ),
    )
}

/// The codes of a pass over a stream.
pub open spec fn codes_of<C: SplitCosts>(
    costs: &C,
    data: Seq<u16>,
    counts: Seq<Seq<u32>>,
) -> Seq<u8> {
    Seq::new(data.len(), |i: int| code_at(costs, data, counts, counts.len() as int, i) as u8)
}

/// Codes numbered in order of appearance.
pub open spec fn dense_codes(codes: Seq<u8>) -> Seq<u8> {
    Seq::new(codes.len(), |i: int| runs::number_in(runs::appeared(codes), codes[i]) as u8)
}

/// The counts an assignment of codes gives.
pub open spec fn recounted(data: Seq<u16>, ids: Seq<u8>, alphabet: int, num: int) -> Seq<Seq<u32>> {
    Seq::new(
        num as nat,
        |k: int| Seq::new(alphabet as nat, |s: int| occurrences_in(data, ids, k, s) as u32),
    )
}

/// The codes every symbol has after some passes, and the counts they give.
pub open spec fn passes_made<C: SplitCosts>(
    costs: &C,
    data: Seq<u16>,
    alphabet: int,
    counts: Seq<Seq<u32>>,
    passes: int,
) -> (Seq<u8>, Seq<Seq<u32>>)
    decreases passes,
{
    if passes <= 0 {
        (Seq::empty(), counts)
    } else {
        let before = passes_made(costs, data, alphabet, counts, passes - 1).1;
        let codes = codes_of(costs, data, before);
        let ids = dense_codes(codes);
        (ids, recounted(data, ids, alphabet, runs::appeared(codes).len() as int))
    }
}

/// How many histograms a stream is seeded with: one per share of symbols, capped.
pub open spec fn seeds_for(length: int, plan: SplitPlan) -> int {
    let wanted = length / (plan.symbols_per_histogram as int) + 1;
    if wanted < plan.max_histograms {
        wanted
    } else {
        plan.max_histograms as int
    }
}

/// A partition is the one a stream that is long enough is split into.
pub open spec fn split_by<C: SplitCosts>(
    costs: &C,
    data: Seq<u16>,
    plan: SplitPlan,
    split: &BlockSplit,
) -> bool {
    let counts = seeded_counts(data, plan, seeds_for(data.len() as int, plan));
    let ids = passes_made(
        costs,
        data,
        plan.alphabet as int,
        counts,
        plan.iterations as int,
    ).0;
    clustered(costs, data, ids, plan.alphabet as int, split)
}

/// A partition is the one a stream is split into: an empty stream has one type and no
/// blocks, a short one is a single block.
pub open spec fn stream_split<C: SplitCosts>(
    costs: &C,
    data: Seq<u16>,
    plan: SplitPlan,
    split: &BlockSplit,
) -> bool {
    if data.len() == 0 {
        split_is(split, Seq::empty(), 1)
    } else if data.len() < MIN_LENGTH_FOR_BLOCK_SPLITTING {
        split_is(split, seq![(0int, data.len() as int)], 1)
    } else {
        split_by(costs, data, plan, split)
    }
}

/// Splits one symbol stream.
///
/// An empty stream has one type and no blocks; a short one is a single block.
pub fn split_byte_vector<C: SplitCosts>(
    data: &[u16],
    plan: &SplitPlan,
    costs: &C,
    split: &mut BlockSplit,
)
    requires
        data@.len() <= MAX_STREAM,
        plan.wf(),
        within(data@, plan.alphabet as int),
        old(split).types@.len() == 0,
        old(split).lengths@.len() == 0,
        old(split).num_blocks == 0,
    ensures
        final(split).num_types >= 1,
        data@.len() == 0 ==> final(split).num_types == 1 && final(split).types@.len() == 0 && final(split).lengths@.len() == 0 && final(split).num_blocks == 0,
        0 < data@.len() < MIN_LENGTH_FOR_BLOCK_SPLITTING ==> final(split).num_types == 1 && final(split).num_blocks == 1 && final(split).types@ == seq![0u8] && final(split).lengths@
            == seq![data@.len() as u32],
        stream_split(costs, data@, *plan, final(split)),
        data@.len() > 0 ==> split_ok(final(split), data@.len() as int),
{
    let length: usize = data.len();
    if length == 0 {
        split.num_types = 1;
        return;
    }
    if length < MIN_LENGTH_FOR_BLOCK_SPLITTING {
        split.num_types = 1;
        split.types.push(0);
        split.lengths.push(length as u32);
        split.num_blocks = split.types.len();
        proof {
            assert(split.types@ =~= seq![0u8]);
            assert(split.lengths@ =~= seq![length as u32]);
            assert(starts_at(split.lengths@, 0) == 0);
            assert(starts_at(split.lengths@, 1) == length);
            assert(split.types@[0] == 0);
            assert(uses_type(split.types@, 0));
        }
        return;
    }
    // One histogram per share of symbols, capped: the cap leaves room for the
    // clustering by context that follows, which this pass cannot see.
    let wanted: usize = length / plan.symbols_per_histogram + 1;
    let mut num: usize = if wanted < plan.max_histograms {
        wanted
    } else {
        plan.max_histograms
    };
    let mut histograms = initial_entropy_codes(data, plan.alphabet, plan.stride, num);
    let ghost sown = histograms@;
    refine_entropy_codes(data, plan.alphabet, plan.stride, num, &mut histograms);
    let ghost first = seeded_counts(data@, *plan, num as int);
    proof {
        assert forall|k: int| 0 <= k < num implies counts_of(histograms@)[k] == first[k] by {
            assert(histogram_ok(histograms@[k], plan.alphabet as int));
            assert(histogram_ok(sown[k], plan.alphabet as int));
            assert forall|s: int| 0 <= s < plan.alphabet implies histograms@[k]@[s] == first[k][s] by {
                assert(histograms@[k]@[s] == sown[k]@[s] + refined(
                    data@,
                    plan.stride as int,
                    num as int,
                    passes_for(data@.len() as int, plan.stride as int, num as int),
                    k,
                    s,
                ));
            }
            assert(histograms@[k]@ =~= first[k]);
        }
        assert(counts_of(histograms@) =~= first);
    }
    let mut ids: Vec<u8> = Vec::new();
    let mut pass: usize = 0;
    assert(ids@ =~= Seq::empty());
    while pass < plan.iterations
        invariant
            length == data@.len(),
            0 < length <= MAX_STREAM,
            plan.wf(),
            within(data@, plan.alphabet as int),
            1 <= num <= MAX_SEEDED_HISTOGRAMS,
            num == histograms@.len(),
            histograms_ok(histograms@, plan.alphabet as int),
            pass <= plan.iterations,
            pass > 0 ==> ids@.len() == length,
            (ids@, counts_of(histograms@)) == passes_made(
                costs,
                data@,
                plan.alphabet as int,
                first,
                pass as int,
            ),
        decreases plan.iterations - pass,
    {
        let (found, _blocks) = find_blocks(data, plan.alphabet, num, &histograms, costs);
        ids = found;
        let ghost before = ids@;
        let ghost known = counts_of(histograms@);
        assert(before =~= codes_of(costs, data@, known));
        num = remap_block_ids(&mut ids, num);
        proof {
            runs::lemma_appeared(before);
            assert(runs::appeared(before).contains(before[0]));
        }
        assert(ids@ =~= dense_codes(before));
        histograms = build_block_histograms(data, &ids, plan.alphabet, num);
        proof {
            let again = recounted(data@, ids@, plan.alphabet as int, num as int);
            assert forall|k: int| 0 <= k < num implies counts_of(histograms@)[k] == again[k] by {
                assert(histogram_ok(histograms@[k], plan.alphabet as int));
                assert(histograms@[k]@ =~= again[k]);
            }
            assert(counts_of(histograms@) =~= again);
        }
        pass += 1;
    }
    cluster_blocks(data, &ids, plan.alphabet, costs, split);
}

/// The literals of a list of commands, in order.
pub open spec fn literals_of(commands: Seq<Command>, data: Seq<u8>, pos: int, mask: usize) -> Seq<u16>
    decreases commands.len(),
{
    if commands.len() == 0 {
        Seq::empty()
    } else {
        let before = commands.drop_last();
        let from = (pos + backward_references::accounted(before)) as int;
        literals_of(before, data, pos, mask) + Seq::new(
            commands.last().insert_len as nat,
            |i: int| literal_at(data, from + i, mask),
        )
    }
}

/// The byte at a position, or zero past the end of the buffer.
pub open spec fn literal_at(data: Seq<u8>, at: int, mask: usize) -> u16 {
    search::byte_at(data, ((at as usize) & mask) as int) as u16
}

/// Gathers the literals of a list of commands into one run.
pub fn gather_literals(commands: &[Command], data: &[u8], pos: usize, mask: usize) -> (literals: Vec<u16>)
    requires
        pos + backward_references::accounted(commands@) <= usize::MAX,
    ensures
        literals@ == literals_of(commands@, data@, pos as int, mask),
        within(literals@, 256),
{
    let mut literals: Vec<u16> = Vec::new();
    let mut from: usize = pos;
    let mut i: usize = 0;
    while i < commands.len()
        invariant
            i <= commands@.len(),
            pos + backward_references::accounted(commands@) <= usize::MAX,
            from == pos + backward_references::accounted(commands@.take(i as int)),
            literals@ == literals_of(commands@.take(i as int), data@, pos as int, mask),
            within(literals@, 256),
        decreases commands@.len() - i,
    {
        let command: Command = commands[i];
        let ghost done = literals@;
        proof {
            assert(commands@.take(i + 1).drop_last() =~= commands@.take(i as int));
            lemma_accounted_part(commands@, i + 1);
        }
        let mut offset: usize = 0;
        while offset < command.insert_len
            invariant
                from + command.insert_len <= usize::MAX,
                offset <= command.insert_len,
                literals@ == done + Seq::new(
                    offset as nat,
                    |k: int| literal_at(data@, from + k, mask),
                ),
                within(literals@, 256),
            decreases command.insert_len - offset,
        {
            let at: usize = (from + offset) & mask;
            let byte: u8 = if at < data.len() {
                data[at]
            } else {
                0
            };
            let ghost held = literals@;
            literals.push(byte as u16);
            proof {
                assert(literals@ =~= done + Seq::new(
                    (offset + 1) as nat,
                    |k: int| literal_at(data@, from + k, mask),
                ));
                assert forall|k: int| 0 <= k < literals@.len() implies #[trigger] literals@[k] < 256 by {
                    if k < held.len() {
                        assert(held[k] < 256);
                    }
                }
            }
            offset += 1;
        }
        from = from + command.insert_len + command.copy_len;
        i += 1;
    }
    assert(commands@.take(commands@.len() as int) =~= commands@);
    literals
}

/// The first commands account for no more than all of them.
proof fn lemma_accounted_part(commands: Seq<Command>, i: int)
    requires
        0 <= i <= commands.len(),
    ensures
        0 <= backward_references::accounted(commands.take(i)) <= backward_references::accounted(
            commands,
        ),
    decreases commands.len(),
{
    if i < commands.len() {
        lemma_accounted_part(commands.drop_last(), i);
        assert(commands.drop_last().take(i) =~= commands.take(i));
    } else {
        assert(commands.take(i) =~= commands);
        if i > 0 {
            lemma_accounted_part(commands.drop_last(), i - 1);
            assert(commands.drop_last().take(i - 1) =~= commands.drop_last());
        }
    }
}

/// The length a command's copy code is chosen by; a command that only inserts is
/// written with the code of four.
pub open spec fn coded_length(command: Command) -> int {
    if command.copy_len == 0 {
        4
    } else {
        command.copy_len + command.len_code_delta
    }
}

/// A command has codes.
pub open spec fn codable(command: Command) -> bool {
    &&& 2 <= coded_length(command) <= 0x200_0000
    &&& command.copy_len <= 0x200_0000
    &&& command.distance_code <= 0x8000_0010
}

/// A command's code.
pub open spec fn command_code(command: Command) -> int {
    command::combined(
        command::insert_code(command.insert_len as int),
        command::copy_code(coded_length(command)),
        command.copy_len > 0 && command.distance_code == 0,
    )
}

/// A command's code says by itself that the last distance is used again.
pub open spec fn implies_last(command: Command) -> bool {
    &&& command.copy_len > 0
    &&& command.distance_code == 0
    &&& command.insert_len < 10
    &&& coded_length(command) < 70
}

/// A command is followed by a distance.
pub open spec fn carries(command: Command) -> bool {
    command.copy_len > 0 && !implies_last(command)
}

/// Which lengths have codes of the lower eighths.
proof fn lemma_short_codes(insert_len: int, insert_code: int, copy_len: int, copy_code: int)
    requires
        command::codes(INS_BASE@, insert_len, insert_code),
        command::codes(COPY_BASE@, copy_len, copy_code),
    ensures
        insert_code < 8 <==> insert_len < 10,
        copy_code < 16 <==> copy_len < 70,
{
    assert(forall|i: int| 0 <= i < 8 ==> #[trigger] INS_BASE@[i] < 10 && INS_BASE@[i + 1] <= 10);
    assert(forall|i: int| 8 <= i < 24 ==> #[trigger] INS_BASE@[i] >= 10);
    assert(forall|i: int| 0 <= i < 16 ==> #[trigger] COPY_BASE@[i] < 70 && COPY_BASE@[i + 1] <= 70);
    assert(forall|i: int| 16 <= i < 24 ==> #[trigger] COPY_BASE@[i] >= 70);
}

/// A command is followed by a distance exactly if it copies and its code is 128 or more.
pub proof fn lemma_code_tells_of_distance(command: Command)
    requires
        codable(command),
    ensures
        carries(command) <==> command.copy_len > 0 && command_code(command) >= 128,
{
    pricing::lemma_insert_coded(command.insert_len as int);
    pricing::lemma_copy_coded(coded_length(command));
    lemma_short_codes(
        command.insert_len as int,
        command::insert_code(command.insert_len as int),
        coded_length(command),
        command::copy_code(coded_length(command)),
    );
}

/// Returns a command's code.
pub fn command_symbol(command: &Command) -> (symbol: usize)
    requires
        codable(*command),
    ensures
        symbol == command_code(*command),
        symbol < 704,
        symbol < 128 <==> implies_last(*command),
{
    let length: usize = if command.copy_len == 0 {
        4
    } else {
        (command.copy_len as i64 + command.len_code_delta as i64) as usize
    };
    let insert_code: usize = insert_length_code(command.insert_len);
    let copy_code: usize = copy_length_code(length);
    let last: bool = command.copy_len > 0 && command.distance_code == 0;
    let symbol: usize = combine_length_codes(insert_code, copy_code, last);
    proof {
        lemma_short_codes(command.insert_len as int, insert_code as int, length as int, copy_code as int);
    }
    symbol
}

/// Splits the three symbol streams of a meta-block.
pub struct BlockSplitter<L, M, D> {
    /// What literals cost.
    pub literal_costs: L,
    /// What command codes cost.
    pub command_costs: M,
    /// What distance codes cost.
    pub distance_costs: D,
}

/// The three partitions of a meta-block.
pub struct Partitions {
    /// Of the literals.
    pub literals: BlockSplit,
    /// Of the command codes.
    pub commands: BlockSplit,
    /// Of the distance codes.
    pub distances: BlockSplit,
}

/// The codes of a list of commands.
pub open spec fn codes_in(commands: Seq<Command>) -> Seq<u16> {
    commands.map_values(|command: Command| command_code(command) as u16)
}

/// The distance symbols of a list of commands, in order.
pub open spec fn distances_in(commands: Seq<Command>, params: DistanceParams) -> Seq<u16>
    decreases commands.len(),
{
    if commands.len() == 0 {
        Seq::empty()
    } else {
        let before = distances_in(commands.drop_last(), params);
        let last = commands.last();
        if carries(last) {
            before.push(
                command::spelled(
                    last.distance_code as int,
                    params.num_direct as int,
                    params.postfix_bits as int,
                ).symbol as u16,
            )
        } else {
            before
        }
    }
}

/// How many commands of a list are followed by a distance.
pub open spec fn carrying(commands: Seq<Command>) -> int
    decreases commands.len(),
{
    if commands.len() == 0 {
        0
    } else {
        carrying(commands.drop_last()) + if carries(commands.last()) {
            1int
        } else {
            0
        }
    }
}

/// Returns the command codes, and the distance symbols of the commands that carry
/// one.
pub fn gather_codes(commands: &[Command], params: &DistanceParams) -> (out: (Vec<u16>, Vec<u16>))
    requires
        forall|i: int| 0 <= i < commands@.len() ==> codable(#[trigger] commands@[i]),
        forall|i: int|
            0 <= i < commands@.len() ==> command::in_alphabet(
                (#[trigger] commands@[i]).distance_code as int,
                params.num_direct as int,
                params.postfix_bits as int,
            ),
        params.num_direct <= 120,
        params.postfix_bits <= 3,
    ensures
        out.0@ == codes_in(commands@),
        within(out.0@, 704),
        out.1@ == distances_in(commands@, *params),
        out.1@.len() == carrying(commands@),
        within(out.1@, 544),
{
    let mut codes: Vec<u16> = Vec::new();
    let mut distances: Vec<u16> = Vec::new();
    let mut i: usize = 0;
    assert(codes@ =~= codes_in(commands@.take(0)));
    while i < commands.len()
        invariant
            forall|j: int| 0 <= j < commands@.len() ==> codable(#[trigger] commands@[j]),
            forall|j: int|
                0 <= j < commands@.len() ==> command::in_alphabet(
                    (#[trigger] commands@[j]).distance_code as int,
                    params.num_direct as int,
                    params.postfix_bits as int,
                ),
            params.num_direct <= 120,
            params.postfix_bits <= 3,
            i <= commands@.len(),
            codes@.len() == i,
            within(codes@, 704),
            codes@ == codes_in(commands@.take(i as int)),
            distances@ == distances_in(commands@.take(i as int), *params),
            distances@.len() == carrying(commands@.take(i as int)),
            within(distances@, 544),
        decreases commands@.len() - i,
    {
        let command: Command = commands[i];
        assert(codable(commands@[i as int]));
        let symbol: usize = command_symbol(&command);
        let ghost held = codes@;
        let ghost kept = distances@;
        codes.push(symbol as u16);
        proof {
            assert(codes@.drop_last() =~= held);
            assert(commands@.take(i + 1).drop_last() =~= commands@.take(i as int));
            assert(codes@ =~= codes_in(commands@.take(i + 1)));
        }
        if command.copy_len > 0 && symbol >= 128 {
            let spelled = prefix_encode_copy_distance(
                command.distance_code,
                params.num_direct as usize,
                params.postfix_bits as usize,
            );
            distances.push(spelled.symbol as u16);
        }
        i += 1;
    }
    assert(commands@.take(commands@.len() as int) =~= commands@);
    (codes, distances)
}

impl<L: SplitCosts, M: SplitCosts, D: SplitCosts> BlockSplitter<L, M, D> {
    /// Splits all three symbol streams of a meta-block.
    ///
    /// `pos` is the wrapped position of the first literal.
    pub fn split(
        &self,
        commands: &[Command],
        data: &[u8],
        pos: usize,
        mask: usize,
        params: &HqParams,
    ) -> (out: Partitions)
        requires
            params.wf(),
            commands@.len() <= MAX_STREAM,
            backward_references::accounted(commands@) <= MAX_STREAM,
            pos + backward_references::accounted(commands@) <= usize::MAX,
            forall|i: int| 0 <= i < commands@.len() ==> codable(#[trigger] commands@[i]),
            forall|i: int|
                0 <= i < commands@.len() ==> command::in_alphabet(
                    (#[trigger] commands@[i]).distance_code as int,
                    params.dist.num_direct as int,
                    params.dist.postfix_bits as int,
                ),
        ensures
            stream_split(
                &self.literal_costs,
                literals_of(commands@, data@, pos as int, mask),
                SplitPlan::literals_plan(params.iterations_of()),
                &out.literals,
            ),
            stream_split(
                &self.command_costs,
                codes_in(commands@),
                SplitPlan::commands_plan(params.iterations_of()),
                &out.commands,
            ),
            stream_split(
                &self.distance_costs,
                distances_in(commands@, params.dist),
                SplitPlan::distances_plan(params.iterations_of()),
                &out.distances,
            ),
            backward_references::inserted(commands@) > 0 ==> split_ok(
                &out.literals,
                backward_references::inserted(commands@),
            ),
            backward_references::inserted(commands@) == 0 ==> out.literals.num_types == 1
                && out.literals.num_blocks == 0,
            commands@.len() > 0 ==> split_ok(&out.commands, commands@.len() as int),
            carrying(commands@) > 0 ==> split_ok(&out.distances, carrying(commands@)),
            carrying(commands@) == 0 ==> out.distances.num_types == 1 && out.distances.num_blocks
                == 0,
    {
        let iterations: usize = params.split_iterations();
        let mut literals = BlockSplit::default();
        let run: Vec<u16> = gather_literals(commands, data, pos, mask);
        proof {
            lemma_literals_count(commands@, data@, pos as int, mask);
        }
        split_byte_vector(
            run.as_slice(),
            &SplitPlan::literals(iterations),
            &self.literal_costs,
            &mut literals,
        );
        let (codes, symbols) = gather_codes(commands, &params.dist);
        proof {
            lemma_carrying_bound(commands@);
        }
        let mut coded = BlockSplit::default();
        split_byte_vector(
            codes.as_slice(),
            &SplitPlan::commands(iterations),
            &self.command_costs,
            &mut coded,
        );
        let mut distances = BlockSplit::default();
        split_byte_vector(
            symbols.as_slice(),
            &SplitPlan::distances(iterations),
            &self.distance_costs,
            &mut distances,
        );
        Partitions { literals, commands: coded, distances }
    }
}

/// As many literals are gathered as the commands insert.
proof fn lemma_literals_count(commands: Seq<Command>, data: Seq<u8>, pos: int, mask: usize)
    ensures
        literals_of(commands, data, pos, mask).len() == backward_references::inserted(commands),
        0 <= backward_references::inserted(commands) <= backward_references::accounted(commands),
    decreases commands.len(),
{
    if commands.len() > 0 {
        lemma_literals_count(commands.drop_last(), data, pos, mask);
    }
}

/// No more commands carry a distance than there are.
proof fn lemma_carrying_bound(commands: Seq<Command>)
    ensures
        0 <= carrying(commands) <= commands.len(),
    decreases commands.len(),
{
    if commands.len() > 0 {
        lemma_carrying_bound(commands.drop_last());
    }
}

} // verus!
