use mbrotli::backend::Backend;
use mbrotli::config::{CompressParams, QualityLevel, WindowBits};
use mbrotli::greedy::backward_references::Command;
use mbrotli::hq::block_splitter::{
    gather_literals, remap_block_ids, split_byte_vector, BlockSplitter, Rand, SplitCosts, SplitPlan,
};
use mbrotli::hq::candidates::{
    merge_prefix_matches, BackwardMatch, MatchRequest, NoCopies, PrefixMatcher, TreeMatcher,
};
use mbrotli::config::BrotliCompressError;
use mbrotli::hq::encoder::{
    sample_literals, should_compress, BlockEngine, HqEncoder, MetaBlock, StoreOnly,
};
use mbrotli::hq::nodes::CostModel;
use mbrotli::hq::params::HqParams;
use mbrotli::hq::zopfli::cap_found;
use mbrotli::shared::block_split::{BlockSplit, MAX_NUMBER_OF_BLOCK_TYPES};
use mbrotli::shared::histogram::Histogram;

/// The shortest stream worth splitting.
const MIN_LENGTH_FOR_BLOCK_SPLITTING: usize = 128;

fn fast_log2(value: usize) -> f64 {
    if value == 0 {
        0.0
    } else {
        (value as f64).log2()
    }
}

/// Estimates the cost of a symbol that has been seen `count` times.
fn bit_cost(count: u32) -> f64 {
    if count == 0 {
        -2.0
    } else {
        fast_log2(count as usize)
    }
}

/// What a histogram's symbols cost under the best code for it, and the code.
fn population_cost(counts: &[u32]) -> f64 {
    let total: f64 = counts.iter().map(|&c| f64::from(c)).sum();
    let mut bits = 12.0;
    for &count in counts {
        if count > 0 {
            bits += 5.0 + f64::from(count) * (total / f64::from(count)).log2();
        }
    }
    bits
}

fn joined(left: &Histogram, right: &Histogram) -> Vec<u32> {
    left.data
        .iter()
        .zip(&right.data)
        .map(|(a, b)| a + b)
        .collect()
}

/// Costs in bits.
struct Bits {
    switch: f64,
}

impl SplitCosts for Bits {
    type Price = f64;

    fn zero(&self) -> f64 {
        0.0
    }

    fn highest(&self) -> f64 {
        1e99
    }

    fn plus(&self, left: f64, right: f64) -> f64 {
        left + right
    }

    fn minus(&self, left: f64, right: f64) -> f64 {
        left - right
    }

    fn below(&self, left: f64, right: f64) -> bool {
        left < right
    }

    fn at_least(&self, left: f64, right: f64) -> bool {
        left >= right
    }

    fn symbol_cost(&self, total: usize, count: u32) -> f64 {
        fast_log2(total) - bit_cost(count)
    }

    fn switch_cost(&self, index: usize) -> f64 {
        if index < 2000 {
            self.switch * (0.77 + 0.07 * index as f64 / 2000.0)
        } else {
            self.switch
        }
    }

    fn move_cost(&self, block: &Histogram, candidate: &Histogram) -> f64 {
        if block.data.iter().all(|&count| count == 0) {
            0.0
        } else {
            population_cost(&joined(block, candidate)) - population_cost(&candidate.data)
        }
    }

    fn next_merge(
        &self,
        histograms: &[Histogram],
        _symbols: &[usize],
        clusters: &[usize],
        limit: usize,
    ) -> Option<(usize, usize)> {
        let mut best = None;
        let mut least = if clusters.len() > limit { 1e99 } else { 0.0 };
        for i in 0..clusters.len() {
            for j in i + 1..clusters.len() {
                let left = &histograms[clusters[i]];
                let right = &histograms[clusters[j]];
                let gain = population_cost(&joined(left, right))
                    - population_cost(&left.data)
                    - population_cost(&right.data);
                if gain < least {
                    least = gain;
                    best = Some((i, j));
                }
            }
        }
        best
    }
}

/// Splits a literal stream on its own, returning the partition.
fn split_literals(data: &[u16], iterations: usize) -> BlockSplit {
    let mut split = BlockSplit::default();
    split_byte_vector(
        data,
        &SplitPlan::literals(iterations),
        &mut Bits { switch: 28.1 },
        &mut split,
    );
    split
}

#[test]
fn the_generator_matches_the_reference_sequence() {
    // Seeded at seven and multiplied by 16807 with wrapping.
    let mut rand = Rand(7);
    assert_eq!(rand.next(), 7u32.wrapping_mul(16807));
    assert_eq!(rand.next(), 7u32.wrapping_mul(16807).wrapping_mul(16807));
}

#[test]
fn an_empty_stream_becomes_one_block_type() {
    let split = split_literals(&[], 3);
    assert_eq!(split.num_types, 1);
    assert!(split.lengths.is_empty());
}

#[test]
fn a_short_stream_is_never_split() {
    let data: Vec<u16> = (0..MIN_LENGTH_FOR_BLOCK_SPLITTING as u16 - 1).collect();
    let split = split_literals(&data, 3);
    assert_eq!(split.num_types, 1);
    assert_eq!(split.num_blocks, 1);
    assert_eq!(split.lengths, vec![data.len() as u32]);
}

#[test]
fn a_uniform_stream_stays_one_block_type() {
    let data = vec![42u16; 8000];
    let split = split_literals(&data, 3);
    assert_eq!(split.num_types, 1, "a uniform stream was split");
    assert_eq!(split.lengths.iter().sum::<u32>(), data.len() as u32);
}

#[test]
fn a_stream_that_changes_character_is_split() {
    // Two halves drawn from disjoint alphabets: one code cannot serve both.
    let mut data = vec![7u16; 6000];
    data.extend(std::iter::repeat(200u16).take(6000));
    let split = split_literals(&data, 10);
    assert!(split.num_types >= 2, "a two-part stream was not split");
    assert_eq!(split.lengths.iter().sum::<u32>(), data.len() as u32);
}

#[test]
fn an_alternating_stream_reuses_its_block_types() {
    // Four runs from two alphabets: the partition should reuse two types
    // rather than inventing four.
    let mut data = Vec::new();
    for round in 0..4 {
        let symbol = if round % 2 == 0 { 3u16 } else { 180 };
        data.extend(std::iter::repeat(symbol).take(4000));
    }
    let split = split_literals(&data, 10);
    assert!(split.num_types <= 3, "kept {} types", split.num_types);
    assert!(split.num_blocks >= 2);
    assert_eq!(split.lengths.iter().sum::<u32>(), data.len() as u32);
}

#[test]
fn every_partition_is_well_formed() {
    let mut rng = 0x1357_9BDF_2468_ACE0u64;
    let mut data = Vec::new();
    for segment in 0..8u16 {
        for _ in 0..3000 {
            rng ^= rng << 13;
            rng ^= rng >> 7;
            rng ^= rng << 17;
            data.push(segment * 30 + ((rng >> 24) % 8) as u16);
        }
    }
    let split = split_literals(&data, 10);

    assert_eq!(split.num_blocks, split.types.len());
    assert_eq!(split.num_blocks, split.lengths.len());
    assert_eq!(split.lengths.iter().sum::<u32>(), data.len() as u32);
    assert!(split.lengths.iter().all(|&length| length > 0));
    assert!(split.num_types <= MAX_NUMBER_OF_BLOCK_TYPES);
    assert!(
        split
            .types
            .iter()
            .all(|&t| usize::from(t) < split.num_types),
        "a block type escaped the type count"
    );
    // Neighbouring blocks always differ in type, or they would be one.
    assert!(split.types.windows(2).all(|pair| pair[0] != pair[1]));
}

#[test]
fn splitting_is_deterministic() {
    let mut data = Vec::new();
    for segment in 0..6u16 {
        data.extend(std::iter::repeat(segment * 40).take(2500));
    }
    let first = split_literals(&data, 10);
    let second = split_literals(&data, 10);
    assert_eq!(first.types, second.types);
    assert_eq!(first.lengths, second.lengths);
    assert_eq!(first.num_types, second.num_types);
}

#[test]
fn the_iteration_count_can_change_the_partition() {
    // Quality ten refines three times and quality eleven ten times; on a
    // stream with structure to find, that is visible in the result.
    let mut data = Vec::new();
    for segment in 0..10u16 {
        data.extend(std::iter::repeat(segment * 25).take(1500));
    }
    let few = split_literals(&data, 3);
    let many = split_literals(&data, 10);
    assert_eq!(few.lengths.iter().sum::<u32>(), data.len() as u32);
    assert_eq!(many.lengths.iter().sum::<u32>(), data.len() as u32);
}

fn hq_params(quality: QualityLevel) -> HqParams {
    HqParams::new(&CompressParams::new(quality, WindowBits::default())).expect("supported quality")
}

/// Two thousand commands of eight literals and a twelve-byte copy.
fn commands() -> Vec<Command> {
    (0..2000usize)
        .map(|index| Command {
            insert_len: 8,
            copy_len: 12,
            len_code_delta: 0,
            distance_code: 35 + index % 300,
        })
        .collect()
}

fn splitter() -> BlockSplitter<Bits, Bits, Bits> {
    BlockSplitter {
        literal_costs: Bits { switch: 28.1 },
        command_costs: Bits { switch: 13.5 },
        distance_costs: Bits { switch: 14.6 },
    }
}

#[test]
fn all_three_streams_are_split_together() {
    let data: Vec<u8> = (0..40_000u32).map(|i| (i % 251) as u8).collect();
    let commands = commands();
    let out = splitter().split(
        &commands,
        &data,
        0,
        usize::MAX,
        &hq_params(QualityLevel::Q11),
    );
    let literals: u32 = out.literals.lengths.iter().sum();
    assert_eq!(literals, 2000 * 8);
    assert_eq!(out.commands.lengths.iter().sum::<u32>(), 2000);
    assert_eq!(out.distances.lengths.iter().sum::<u32>(), 2000);
    assert_eq!(gather_literals(&commands, &data, 0, usize::MAX).len(), 2000 * 8);
}

#[test]
fn a_reused_splitter_produces_the_same_partition() {
    let data: Vec<u8> = (0..40_000u32).map(|i| (i % 251) as u8).collect();
    let commands = commands();
    let mut reused = splitter();
    let params = hq_params(QualityLevel::Q11);
    let first = reused.split(&commands, &data, 0, usize::MAX, &params);
    let second = reused.split(&commands, &data, 0, usize::MAX, &params);
    assert_eq!(first.literals.types, second.literals.types);
    assert_eq!(first.literals.lengths, second.literals.lengths);
    assert_eq!(first.commands.lengths, second.commands.lengths);
    assert_eq!(first.distances.lengths, second.distances.lengths);
}

#[test]
fn block_ids_are_renumbered_as_they_appear() {
    let mut ids = vec![7u8, 7, 2, 9, 2, 7];
    assert_eq!(remap_block_ids(&mut ids, 10), 3);
    assert_eq!(ids, [0, 0, 1, 2, 1, 0]);
}

#[test]
fn the_window_header_matches_the_reference_encoding() {
    let header = |lgwin| {
        HqParams::new(&CompressParams::new(
            QualityLevel::Q11,
            WindowBits::standard(lgwin).expect("a legal window"),
        ))
        .expect("a supported quality")
        .header()
    };
    assert_eq!(header(16), (0, 1));
    assert_eq!(header(17), (1, 7));
    assert_eq!(header(22), (11, 4));
    assert_eq!(header(10), (0x21, 7));
}

/// Whether a literal sample looks like noise: it costs nearly eight bits a symbol.
fn noisy(sample: &Histogram, bytes: usize) -> bool {
    let total: f64 = sample.data.iter().map(|&c| f64::from(c)).sum();
    let mut bits = 0.0;
    for &count in &sample.data {
        if count > 0 {
            bits += f64::from(count) * (total / f64::from(count)).log2();
        }
    }
    let threshold = bytes as f64 * 7.92 / 13.0;
    bits > threshold
}

fn worth(data: &[u8], num_literals: usize, num_commands: usize) -> bool {
    let bytes = data.len();
    let mostly = num_literals as f64 > 0.99 * bytes as f64;
    let sample = sample_literals(data, usize::MAX, 0, bytes);
    should_compress(bytes, num_commands, mostly, noisy(&sample, bytes))
}

#[test]
fn a_tiny_block_is_never_compressed() {
    assert!(!worth(&[1, 2], 2, 0));
}

fn random_bytes(count: usize) -> Vec<u8> {
    let mut rng = 0x1234_5678u64;
    (0..count)
        .map(|_| {
            rng ^= rng << 13;
            rng ^= rng >> 7;
            rng ^= rng << 17;
            (rng >> 24) as u8
        })
        .collect()
}

#[test]
fn random_literals_are_stored_uncompressed() {
    let data = random_bytes(200_000);
    assert!(!worth(&data, data.len(), 1));
}

#[test]
fn text_is_worth_compressing() {
    let data = b"the quick brown fox ".repeat(400);
    assert!(worth(&data, data.len(), 1));
    assert!(should_compress(1000, 6, true, true));
    assert!(!should_compress(1000, 4, true, true));
}

/// A model that charges one unit for everything.
struct Units;

impl CostModel for Units {
    type Price = u64;

    fn zero(&self) -> u64 {
        0
    }

    fn infinite(&self) -> u64 {
        1 << 60
    }

    fn plus(&self, left: u64, right: u64) -> u64 {
        left.saturating_add(right)
    }

    fn minus(&self, left: u64, right: u64) -> u64 {
        left.saturating_sub(right)
    }

    fn bits(&self, count: u32) -> u64 {
        u64::from(count)
    }

    fn below(&self, left: u64, right: u64) -> bool {
        left < right
    }

    fn at_most(&self, left: u64, right: u64) -> bool {
        left <= right
    }

    fn literal_costs(&self, from: usize, to: usize) -> u64 {
        8 * (to - from) as u64
    }

    fn command_cost(&self, _code: usize) -> u64 {
        6
    }

    fn distance_cost(&self, _symbol: usize) -> u64 {
        5
    }

    fn min_cost_cmd(&self) -> u64 {
        6
    }

    fn set_from_literal_costs(&mut self, _position: usize, _data: &[u8], _mask: usize, _bytes: usize) {}

    fn set_from_commands(
        &mut self,
        _position: usize,
        _data: &[u8],
        _mask: usize,
        _commands: &[Command],
        _last_insert_len: usize,
        _bytes: usize,
    ) {
    }
}

/// A finder that offers the repeats sixteen bytes back, and some that are not there.
struct Periodic;

impl TreeMatcher for Periodic {
    fn find_all_matches(&mut self, request: MatchRequest) -> Vec<BackwardMatch> {
        let mut out = vec![BackwardMatch::new(3, 5)];
        if request.max_backward >= 16 && request.position >= 16 && request.max_length >= 4 {
            out.push(BackwardMatch::new(16, request.max_length));
        }
        out
    }

    fn store_range(&mut self, _data: &[u8], _mask: usize, _from: usize, _to: usize) {}
}

struct NoPrefix;

impl PrefixMatcher for NoPrefix {
    fn find_all_matches(
        &mut self,
        _request: MatchRequest,
        _shortest: usize,
        _limit: usize,
    ) -> Vec<(usize, usize)> {
        Vec::new()
    }
}

/// An engine that records the commands of every meta-block.
struct Recorder {
    noisy: bool,
    blocks: Vec<(usize, usize)>,
}

impl BlockEngine for Recorder {
    fn prepare(&mut self) {}

    fn stitch(&mut self, _data: &[u8], _mask: usize, _input_size: usize, _position: usize) {}

    fn context_mode(&mut self, _data: &[u8], _mask: usize, _position: usize, _length: usize) -> u8 {
        0
    }

    fn mostly_literals(&mut self, num_literals: usize, bytes: usize) -> bool {
        num_literals as f64 > 0.99 * bytes as f64
    }

    fn noisy(&mut self, _sample: &Histogram, _bytes: usize) -> bool {
        self.noisy
    }

    fn store_meta_block(&mut self, block: MetaBlock, carried: u16, bits: u32) -> (Vec<u8>, usize) {
        let covered: usize = block
            .commands
            .iter()
            .map(|command| command.insert_len + command.copy_len() as usize)
            .sum();
        self.blocks.push((covered, block.commands.len()));
        let mut out = carried.to_le_bytes().to_vec();
        out.resize(16, 0);
        (out, bits as usize + 9)
    }
}

fn encoder(quality: QualityLevel) -> HqEncoder {
    HqEncoder::new(
        Backend::scalar(),
        &CompressParams::new(quality, WindowBits::default()),
    )
    .expect("supported quality")
}

#[test]
fn both_qualities_produce_a_non_empty_stream() {
    for quality in [QualityLevel::Q10, QualityLevel::Q11] {
        let mut engine = Recorder {
            noisy: false,
            blocks: Vec::new(),
        };
        let input = b"0123456789abcdef".repeat(64);
        let stream = encoder(quality)
            .encode_block(&input, true, &mut Units, &mut Periodic, &mut NoPrefix, &mut engine)
            .expect("encoding failed");
        assert!(!stream.is_empty(), "quality {quality:?} produced nothing");
        // One meta-block whose commands cover the input, the repeat in few of them.
        assert_eq!(engine.blocks.len(), 1);
        assert_eq!(engine.blocks[0].0, input.len());
        assert!(engine.blocks[0].1 < 10);
    }
}

#[test]
fn an_empty_stream_is_two_bits() {
    for quality in [QualityLevel::Q10, QualityLevel::Q11] {
        let mut engine = Recorder {
            noisy: false,
            blocks: Vec::new(),
        };
        let mut encoder = encoder(quality);
        let stream = encoder
            .encode_block(&[], true, &mut Units, &mut Periodic, &mut NoPrefix, &mut engine)
            .expect("encoding failed");
        // The window header 1011 and the two bits of an empty last meta-block.
        assert_eq!(stream, [0b0011_1011]);
        assert!(encoder.is_finished());
    }
}

#[test]
fn the_block_size_limit_follows_the_window() {
    // The default window is twenty-two bits, so blocks are eighteen bits at both
    // qualities.
    assert_eq!(encoder(QualityLevel::Q10).block_size_limit(), 1 << 18);
    assert_eq!(encoder(QualityLevel::Q11).block_size_limit(), 1 << 18);
}

#[test]
fn noise_is_stored_verbatim() {
    let data = random_bytes(20_000);
    let mut engine = Recorder {
        noisy: true,
        blocks: Vec::new(),
    };
    let stream = encoder(QualityLevel::Q11)
        .encode_block(&data, true, &mut Units, &mut Periodic, &mut NoPrefix, &mut engine)
        .expect("encoding failed");
    assert!(engine.blocks.is_empty());
    assert!(stream.windows(data.len()).any(|part| part == &data[..]));
}

#[test]
fn prefix_and_window_matches_are_merged_by_length() {
    let mut tree = vec![BackwardMatch::new(10, 4), BackwardMatch::new(20, 8)];
    merge_prefix_matches(&vec![(500, 4), (600, 6), (700, 9)], &mut tree);
    let order: Vec<(usize, usize)> = tree.iter().map(|m| (m.distance, m.length)).collect();
    assert_eq!(order, [(10, 4), (500, 4), (600, 6), (20, 8), (700, 9)]);
}

#[test]
fn a_long_match_is_taken_alone() {
    let found = vec![BackwardMatch::new(10, 4), BackwardMatch::new(20, 400)];
    let kept = cap_found(found, 325);
    assert_eq!(kept.len(), 1);
    assert_eq!(kept[0].distance, 20);
}

#[test]
fn a_compressed_meta_block_is_kept_refused_or_replaced() {
    let mut encoder = encoder(QualityLevel::Q10);
    encoder.copy_input_to_ring_buffer(b"hello");
    // Ten bytes are more than the five and their header.
    let replaced = encoder
        .settle_stored(vec![0; 16], 80, 5, true)
        .ok()
        .expect("stored");
    assert!(replaced.stored);
    assert!(replaced.storage.starts_with(b"\x0b\x02\x80hello\x03"));
    // Twenty bits do not end inside two bytes.
    assert!(matches!(
        encoder.settle_stored(vec![1, 2], 20, 5, true),
        Err(BrotliCompressError::BufferOverflow)
    ));
    let kept = encoder
        .settle_stored(vec![1, 2, 3], 20, 5, false)
        .ok()
        .expect("kept");
    assert!(!kept.stored);
    assert_eq!(kept.position, 20);
    assert_eq!(kept.storage, [1, 2, 3]);
}

#[test]
fn an_engine_that_only_stores_leaves_the_bytes_as_they_are() {
    for quality in [QualityLevel::Q10, QualityLevel::Q11] {
        let stream = encoder(quality)
            .encode_block(
                b"hello",
                true,
                &mut Units,
                &mut NoCopies,
                &mut NoPrefix,
                &mut StoreOnly,
            )
            .expect("stored");
        assert_eq!(stream, b"\x0b\x02\x80hello\x03");
    }
}
