use mbrotli::backend::Backend;
use mbrotli::config::{
    BlockBits, BrotliCompressError, CompressMode, CompressParams, DistanceCodes, QualityLevel,
    WindowBits,
};
use mbrotli::greedy::params::{
    choose_distance_params, choose_hasher, compute_lgblock, GreedyParams, GreedyQuality, HasherPlan,
    LARGE_INPUT_SIZE_HINT, MAX_INPUT_BLOCK_BITS,
};
use mbrotli::greedy::tables::{
    CONTEXT_LUT_UTF8, COPY_BASE, COPY_EXTRA, INS_BASE, INS_EXTRA, MAX_STATIC_CONTEXTS,
    PREFIX_CODE_RANGES, STATIC_CONTEXT_MAP_COMPLEX_UTF8, STATIC_CONTEXT_MAP_CONTINUATION,
    STATIC_CONTEXT_MAP_SIMPLE_UTF8,
};
use mbrotli::greedy::tags::{matching_mask, Candidates};
use mbrotli::shared::distance::DistanceParams;

#[test]
fn quality_routing_accepts_only_the_greedy_range() {
    assert_eq!(
        GreedyQuality::try_from(QualityLevel::Q3).ok(),
        Some(GreedyQuality::Q3)
    );
    assert_eq!(
        GreedyQuality::try_from(QualityLevel::Q5).ok(),
        Some(GreedyQuality::Q5)
    );
    assert!(matches!(
        GreedyQuality::try_from(QualityLevel::Q2),
        Err(BrotliCompressError::UnsupportedQuality(2))
    ));
    assert!(matches!(
        GreedyQuality::try_from(QualityLevel::Q6),
        Err(BrotliCompressError::UnsupportedQuality(6))
    ));
}

#[test]
fn quality_three_never_splits_and_never_searches_extensively() {
    assert!(!GreedyQuality::Q3.splits_blocks());
    assert!(GreedyQuality::Q4.splits_blocks());
    assert!(!GreedyQuality::Q4.extensive_reference_search());
    assert!(GreedyQuality::Q5.extensive_reference_search());
}

#[test]
fn only_quality_five_models_literal_contexts() {
    assert!(!GreedyQuality::Q3.models_literal_contexts());
    assert!(!GreedyQuality::Q4.models_literal_contexts());
    assert!(GreedyQuality::Q5.models_literal_contexts());
}

#[test]
fn lgblock_is_fourteen_below_the_block_split_quality() {
    assert_eq!(compute_lgblock(GreedyQuality::Q3, None), 14);
    assert_eq!(compute_lgblock(GreedyQuality::Q3, Some(24)), 14);
    assert_eq!(compute_lgblock(GreedyQuality::Q4, None), 16);
    assert_eq!(compute_lgblock(GreedyQuality::Q5, None), 16);
    assert_eq!(compute_lgblock(GreedyQuality::Q5, Some(18)), 18);
    assert_eq!(compute_lgblock(GreedyQuality::Q5, Some(10)), 16);
    assert_eq!(compute_lgblock(GreedyQuality::Q5, Some(30)), 24);
}

#[test]
fn hasher_selection_follows_the_size_hint_and_window() {
    assert_eq!(choose_hasher(GreedyQuality::Q3, 22, 0), HasherPlan::H3);
    assert_eq!(
        choose_hasher(GreedyQuality::Q3, 22, LARGE_INPUT_SIZE_HINT),
        HasherPlan::H3
    );

    assert_eq!(
        choose_hasher(GreedyQuality::Q4, 22, LARGE_INPUT_SIZE_HINT - 1),
        HasherPlan::H4
    );
    assert_eq!(
        choose_hasher(GreedyQuality::Q4, 22, LARGE_INPUT_SIZE_HINT),
        HasherPlan::H54
    );
    assert_eq!(
        choose_hasher(GreedyQuality::Q4, 22, LARGE_INPUT_SIZE_HINT + 1),
        HasherPlan::H54
    );

    assert_eq!(choose_hasher(GreedyQuality::Q5, 16, 0), HasherPlan::H40);
    assert_eq!(
        choose_hasher(GreedyQuality::Q5, 16, LARGE_INPUT_SIZE_HINT),
        HasherPlan::H40
    );
    assert!(matches!(
        choose_hasher(GreedyQuality::Q5, 17, 0),
        HasherPlan::H5 {
            bucket_bits: 14,
            block_bits: 4,
            last_distances: 4
        }
    ));
    assert!(matches!(
        choose_hasher(GreedyQuality::Q5, 18, LARGE_INPUT_SIZE_HINT),
        HasherPlan::H5 { .. }
    ));
    assert!(matches!(
        choose_hasher(GreedyQuality::Q5, 19, LARGE_INPUT_SIZE_HINT - 1),
        HasherPlan::H5 { .. }
    ));
    assert!(matches!(
        choose_hasher(GreedyQuality::Q5, 19, LARGE_INPUT_SIZE_HINT),
        HasherPlan::H6 {
            bucket_bits: 15,
            block_bits: 4,
            last_distances: 4
        }
    ));
}

#[test]
fn distance_alphabet_matches_the_reference_formulas() {
    let default = DistanceParams::default();
    assert_eq!(default.alphabet_size_max, 64);
    assert_eq!(default.alphabet_size_limit, 64);
    assert_eq!(default.max_distance, 0x3FF_FFFC);

    let font = DistanceParams::new(1, 12);
    assert_eq!(font.alphabet_size_max, 16 + 12 + (24 << 2));
    assert_eq!(font.postfix_bits, 1);
}

#[test]
fn font_mode_asks_for_the_reference_distance_parameters() {
    let font = choose_distance_params(
        GreedyQuality::Q4,
        CompressMode::Font,
        DistanceCodes::default(),
    );
    assert_eq!((font.postfix_bits, font.num_direct), (1, 12));

    let generic = choose_distance_params(
        GreedyQuality::Q4,
        CompressMode::Generic,
        DistanceCodes::default(),
    );
    assert_eq!((generic.postfix_bits, generic.num_direct), (0, 0));

    // Quality three never uses non-zero distance parameters.
    let low = choose_distance_params(
        GreedyQuality::Q3,
        CompressMode::Font,
        DistanceCodes::default(),
    );
    assert_eq!((low.postfix_bits, low.num_direct), (0, 0));
}

#[test]
fn invalid_distance_parameters_fall_back_to_zero() {
    // `ndirect` must be a multiple of `1 << npostfix` and its high nibble
    // must fit in four bits; the reference drops both otherwise.
    let bad = choose_distance_params(
        GreedyQuality::Q5,
        CompressMode::Generic,
        DistanceCodes::from_raw(2, 6),
    );
    assert_eq!((bad.postfix_bits, bad.num_direct), (0, 0));

    let good = choose_distance_params(
        GreedyQuality::Q5,
        CompressMode::Generic,
        DistanceCodes::from_raw(2, 8),
    );
    assert_eq!((good.postfix_bits, good.num_direct), (2, 8));

    let too_many = choose_distance_params(
        GreedyQuality::Q5,
        CompressMode::Generic,
        DistanceCodes::from_raw(0, 121),
    );
    assert_eq!((too_many.postfix_bits, too_many.num_direct), (0, 0));
}

#[test]
fn derived_sizes_follow_the_window_and_block() -> Result<(), BrotliCompressError> {
    let params = CompressParams::new(QualityLevel::Q5, WindowBits::default());
    let resolved = GreedyParams::new(&params, 0)?;
    assert_eq!(resolved.lgblock, 16);
    assert_eq!(resolved.input_block_size(), 1 << 16);
    assert_eq!(resolved.rb_bits(), 23);
    assert_eq!(resolved.max_metablock_size(), 1 << 23);
    assert_eq!(resolved.max_backward_limit(), (1 << 22) - 16);
    assert_eq!(resolved.random_heuristics_window_size(), 64);
    Ok(())
}

#[test]
fn a_huge_ring_buffer_is_capped_at_the_input_block_limit() -> Result<(), BrotliCompressError> {
    let params = CompressParams::new(QualityLevel::Q5, WindowBits::standard(24).expect("the widest window"))
        .with_block_bits(Some(BlockBits::max()));
    let resolved = GreedyParams::new(&params, 0)?;
    assert_eq!(resolved.rb_bits(), 25);
    assert_eq!(resolved.max_metablock_size(), 1 << MAX_INPUT_BLOCK_BITS);
    Ok(())
}

#[test]
fn context_lut_matches_the_reference_checksum() {
    assert_eq!(CONTEXT_LUT_UTF8.len(), 512);
    assert_eq!(
        CONTEXT_LUT_UTF8.iter().map(|&v| u32::from(v)).sum::<u32>(),
        4394
    );
    assert_eq!(CONTEXT_LUT_UTF8[usize::from(b'a')], 56);
    assert_eq!(CONTEXT_LUT_UTF8[usize::from(b'b')], 60);
    assert_eq!(CONTEXT_LUT_UTF8[256 + usize::from(b'a')], 3);
    assert_eq!(CONTEXT_LUT_UTF8[usize::from(b' ')], 8);
}

#[test]
fn command_tables_have_the_reference_lengths_and_checksums() {
    assert_eq!(INS_BASE.iter().sum::<u32>(), 33_577);
    assert_eq!(COPY_BASE.iter().sum::<u32>(), 4_866);
    assert_eq!(INS_EXTRA.iter().sum::<u32>(), 120);
    assert_eq!(COPY_EXTRA.iter().sum::<u32>(), 94);
}

#[test]
fn prefix_code_ranges_are_contiguous() {
    let mut next = 1u32;
    for &(offset, nbits) in &PREFIX_CODE_RANGES {
        assert_eq!(offset, next);
        next = offset + (1u32 << nbits);
    }
}

#[test]
fn static_context_maps_stay_within_their_context_counts() {
    assert!(STATIC_CONTEXT_MAP_SIMPLE_UTF8.iter().all(|&v| v < 2));
    assert!(STATIC_CONTEXT_MAP_CONTINUATION.iter().all(|&v| v < 3));
    assert!(
        STATIC_CONTEXT_MAP_COMPLEX_UTF8
            .iter()
            .all(|&v| (v as usize) < MAX_STATIC_CONTEXTS)
    );
}

#[test]
fn masks_match_scalar_equality_for_every_byte_and_misalignment() {
    let bytes: Vec<u8> = (0..80).map(|i| (i * 17) as u8).collect();
    for backend in Backend::available() {
        for offset in 0..64 {
            let group = bytes[offset..].first_chunk::<16>().expect("group");
            for tag in 0..=255 {
                let expected = group.iter().enumerate().fold(0u64, |mask, (i, &value)| {
                    mask | (u64::from(value == tag) << i)
                });
                assert_eq!(
                    matching_mask(backend, group, tag),
                    expected
                );
            }
        }
    }
}

#[test]
fn circular_filter_preserves_order_at_partial_full_and_counter_wrap_boundaries() {
    for capacity in [16, 32, 64, 128, 256] {
        let tags: Vec<u8> = (0..capacity).map(|i| (i % 7) as u8).collect();
        for count in [0, 1, 15, 16, 17, 31, 32, 63, 64, 65, 255, 256, 257, 65535] {
            for backend in Backend::available() {
                for tag in 0..=7 {
                    let expected: Vec<_> = ((count as usize).saturating_sub(capacity)
                        ..count as usize)
                        .rev()
                        .map(|index| index & (capacity - 1))
                        .filter(|&slot| backend == Backend::scalar() || tags[slot] == tag)
                        .collect();
                    let mut candidates = Candidates::new(backend, count, capacity, &tags, tag);
                    let mut actual = Vec::new();
                    while let Some(slot) =
                        candidates.next(backend, &tags, tag)
                    {
                        actual.push(slot);
                    }
                    assert_eq!(
                        actual, expected,
                        "{backend:?}, capacity {capacity}, count {count}, tag {tag}"
                    );
                }
            }
        }
    }
}
