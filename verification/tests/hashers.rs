use mbrotli::backend::Backend;
use mbrotli::greedy::bucket::{BucketMatcher, Layout, COMPACT_INPUT_LIMIT, MAX_GENERATION};
use mbrotli::greedy::chain::{ChainMatcher, ChainShape};
use mbrotli::greedy::finder::{BucketShape, HasherPlan, MatchFinder};
use mbrotli::greedy::keymap::KeyMap;
use mbrotli::greedy::matcher::{Matcher, MatcherRuns, NoDictionary};
use mbrotli::greedy::quick::QuickMatcher;
use mbrotli::greedy::search::{
    initial_distance_cache, prepare_distance_cache, rotate_candidates, tag_equality, DistanceCache,
    MatchQuery, SearchResult, NUM_REMEMBERED_DISTANCES,
};
use mbrotli::greedy::slots::{SmallSlots, SMALL_SLOTS_MAX_INPUT};

/// The widest backend of this host.
fn native() -> Backend {
    Backend::available().pop().unwrap_or(Backend::scalar())
}

#[test]
fn compact_slots_preserve_colliding_keys_through_growth_overwrites_and_reset() {
    let mut slots = SmallSlots::default();
    assert_eq!(slots.read(3), 0);
    for key in 0..1024 {
        slots.write(key * 32 + 3, key as u32 + 1);
    }
    for key in 0..1024 {
        assert_eq!(slots.read(key * 32 + 3), key as u32 + 1);
        slots.write(key * 32 + 3, SMALL_SLOTS_MAX_INPUT as u32 - 1);
        assert_eq!(slots.read(key * 32 + 3), SMALL_SLOTS_MAX_INPUT as u32 - 1);
    }
    assert_eq!(slots.count, 1024);
    assert_eq!(slots.read(4), 0);
    let capacity = slots.entries.capacity();
    slots.reset(16);
    assert_eq!(slots.entries.capacity(), capacity);
    assert_eq!(slots.read(3), 0);
    slots.write(3, 7);
    assert_eq!(slots.read(3), 7);
}

#[test]
fn compact_quick_matchers_preserve_the_full_tables_results_on_every_backend() {
    let data = repeated();
    for plan in [HasherPlan::H2, HasherPlan::H3, HasherPlan::H4] {
        for backend in Backend::available() {
            let expected = {
                let mut matcher = primed(MatchFinder::for_plan(plan), &data);
                search_with(backend, &mut matcher, &data, REPEAT_AT)
            };
            let actual = {
                let mut matcher = primed(MatchFinder::for_input(plan, 16), &data);
                search_with(backend, &mut matcher, &data, REPEAT_AT)
            };
            assert_eq!(actual, expected, "{backend:?}, {plan:?}");
        }
    }
}

#[test]
fn a_cold_q9_chain_allocates_only_the_bank_it_uses() {
    let mut matcher = ChainMatcher::<512, 9>::new(Q9_CHAIN);
    assert!(matcher.slots.is_empty());
    let data = [b'a'; 64];
    matcher.store(&data, usize::MAX, 0);
    assert_eq!(matcher.slots.len(), 512);
    matcher.store(&data, usize::MAX, 1);
    assert_eq!(matcher.slots.len(), 512);
    let retained = matcher.retained_bytes();
    matcher.prepare(false, data.len(), &data, true);
    matcher.store(&data, usize::MAX, 0);
    assert_eq!(matcher.retained_bytes(), retained);
}

#[test]
fn a_short_input_links_each_store_in_front_of_its_bucket_chain() {
    let mut matcher = BucketMatcher::<false, { 1 << 15 }, 256>::new(0);
    let data = [b'a'; 64];
    matcher.prepare(true, data.len(), &data, true);
    assert_eq!(matcher.layout, Layout::Compact);
    assert!(matcher.retained_bytes() < 16 * 1024);
    assert!(matcher.chain.is_empty());
    for position in 0..5 {
        matcher.store(&data, usize::MAX, position);
    }
    assert!(matcher.starters.is_empty());
    assert!(matcher.blocks.is_empty());
    // Every store is one node, linked to the previous store into the
    // same bucket: position 4 first, then 3, down to 0 with no link.
    assert_eq!(matcher.chain.len(), 5);
    let key = BucketMatcher::<false, { 1 << 15 }, 256>::hash_with_tag(&data, 0) >> 8;
    let (count, head) = matcher.entry(key);
    assert_eq!(count, 5);
    let mut link = head as usize;
    let mut walked = Vec::new();
    while link != 0 {
        let node = matcher.chain[link - 1];
        walked.push(node as u32);
        link = (node >> 32) as usize;
    }
    assert_eq!(walked, [4, 3, 2, 1, 0]);
}

#[test]
fn a_short_input_scans_only_the_newest_block_of_a_long_chain() {
    // Every position of a run hashes into one bucket. The block keeps
    // sixteen positions, so the chain walk stops after sixteen too and
    // the compact matcher finds what the sparse one does.
    let data = [b'a'; 200];
    let mut compact = BucketMatcher::<false, { 1 << 14 }, 16>::new(0);
    compact.prepare(true, data.len(), &data, true);
    assert_eq!(compact.layout, Layout::Compact);
    let mut sparse = BucketMatcher::<false, { 1 << 14 }, 16>::new(COMPACT_INPUT_LIMIT + 1);
    sparse.prepare(true, COMPACT_INPUT_LIMIT + 1, &data, true);
    assert_eq!(sparse.layout, Layout::Sparse);
    compact.store_range(&data, usize::MAX, 0, 100);
    sparse.store_range(&data, usize::MAX, 0, 100);
    let expected = search_with(native(), &mut sparse, &data, 100);
    let actual = search_with(native(), &mut compact, &data, 100);
    assert_eq!(actual, expected);
    assert!(actual.is_match());
    assert_eq!(BucketMatcher::<false, { 1 << 15 }, 256>::block(0), None);
}

#[test]
fn every_layout_finds_the_same_match_and_forgets_it_on_prepare() {
    let data = repeated();
    for backend in Backend::available() {
        let mut expected = None;
        for (one_shot, input_size, size_hint, layout) in [
            (true, data.len(), data.len(), Layout::Compact),
            (
                true,
                COMPACT_INPUT_LIMIT + 1,
                COMPACT_INPUT_LIMIT + 1,
                Layout::Sparse,
            ),
            (false, data.len(), 1 << 20, Layout::Dense),
            // A tagged shape takes an unknown length for a long stream.
            (false, data.len(), 0, Layout::Dense),
        ] {
            let mut matcher = BucketMatcher::<false, { 1 << 14 }, 16>::new(size_hint);
            matcher.prepare(one_shot, input_size, &data, true);
            assert_eq!(matcher.layout, layout, "{backend:?}");
            matcher.store_range(&data, usize::MAX, 0, REPEAT_AT);
            let found = search_with(backend, &mut matcher, &data, REPEAT_AT);
            assert_eq!(
                (found.distance, found.len),
                (64, 64),
                "{backend:?} {layout:?}"
            );
            let found = (found.distance, found.len, found.score);
            assert_eq!(
                *expected.get_or_insert(found),
                found,
                "{backend:?} {layout:?}"
            );
            // A new stream of any layout starts from an empty table.
            for (next_one_shot, next_size) in [
                (one_shot, input_size),
                (true, 16),
                (true, COMPACT_INPUT_LIMIT + 1),
                (false, 0),
            ] {
                matcher.prepare(next_one_shot, next_size, &data, true);
                assert!(
                    !search_with(backend, &mut matcher, &data, REPEAT_AT).is_match(),
                    "{backend:?} {layout:?} -> {next_one_shot} {next_size}"
                );
            }
        }
    }
}

#[test]
fn a_deep_shape_takes_the_dense_table_once_it_is_reused() {
    // A quarter-mebibyte hint is below an eighth of the 8 MiB table, so
    // the first stream stays on demand; the second stream, a sixty-fourth
    // being enough for a reused matcher, gets the table.
    let data = repeated();
    let mut matcher = BucketMatcher::<false, { 1 << 15 }, 64>::new(1 << 18);
    matcher.prepare(false, data.len(), &data, true);
    assert_eq!(matcher.layout, Layout::Sparse);
    matcher.prepare(false, data.len(), &data, true);
    assert_eq!(matcher.layout, Layout::Dense);
    // A hint below a sixty-fourth stays on demand however often it is
    // reused; retargeting to a longer stream changes that.
    let mut short = BucketMatcher::<false, { 1 << 15 }, 64>::new(1 << 16);
    for _ in 0..3 {
        short.prepare(false, data.len(), &data, true);
        assert_eq!(short.layout, Layout::Sparse);
    }
    short.retarget(1 << 18);
    short.prepare(false, data.len(), &data, true);
    assert_eq!(short.layout, Layout::Dense);
}

#[test]
fn retargeting_keeps_a_finder_only_when_its_variant_would_not_change() {
    let mut small = MatchFinder::for_input(HasherPlan::H2, 16);
    assert!(matches!(small, MatchFinder::H2Small(_)));
    assert!(small.retarget(HasherPlan::H2, 2048));
    assert!(!small.retarget(HasherPlan::H2, 2049));
    assert!(!small.retarget(HasherPlan::H2, 0));
    let mut full = MatchFinder::for_input(HasherPlan::H2, 0);
    assert!(matches!(full, MatchFinder::H2(_)));
    assert!(full.retarget(HasherPlan::H2, 1 << 20));
    assert!(!full.retarget(HasherPlan::H2, 100));
    let mut bucket = MatchFinder::for_input(HasherPlan::H5(Q5_BUCKET), 100);
    assert!(bucket.retarget(HasherPlan::H5(Q5_BUCKET), 1 << 20));
    let MatchFinder::H5Q5(inner) = &bucket else {
        panic!("shape changed");
    };
    assert_eq!(inner.size_hint, 1 << 20);
}

#[test]
fn a_sparse_table_wipes_itself_when_its_generations_run_out() {
    let data = repeated();
    let mut matcher = BucketMatcher::<false, { 1 << 14 }, 16>::new(COMPACT_INPUT_LIMIT + 1);
    matcher.prepare(true, COMPACT_INPUT_LIMIT + 1, &data, true);
    matcher.store_range(&data, usize::MAX, 0, REPEAT_AT);
    matcher.generation = MAX_GENERATION;
    matcher.prepare(true, COMPACT_INPUT_LIMIT + 1, &data, true);
    assert_eq!(matcher.generation, 1);
    assert!(matcher.blocks.is_empty());
    assert!(matcher.starters.is_empty());
    assert!(!search_at(&mut matcher, &data, REPEAT_AT).is_match());
    // A bump is what an ordinary new stream costs.
    matcher.prepare(true, COMPACT_INPUT_LIMIT + 1, &data, true);
    assert_eq!(matcher.generation, 2);
}

#[test]
fn a_dense_table_keeps_its_blocks_and_clears_only_its_counters() {
    let data = repeated();
    let mut matcher = BucketMatcher::<false, { 1 << 14 }, 16>::new(1 << 20);
    matcher.prepare(false, data.len(), &data, true);
    matcher.store_range(&data, usize::MAX, 0, REPEAT_AT);
    let retained = matcher.retained_bytes();
    matcher.prepare(false, data.len(), &data, true);
    assert_eq!(matcher.retained_bytes(), retained);
    assert!(matcher.num.iter().all(|&count| count == 0));
    assert!(!search_at(&mut matcher, &data, REPEAT_AT).is_match());
}

#[test]
fn the_key_map_keeps_colliding_keys_through_growth_and_reset() {
    let mut map = KeyMap::default();
    assert_eq!(map.get(3), (0, 0));
    map.reset(4);
    for key in 0..1024 {
        map.set(key * 64 + 3, key as u16 + 1, key as u32 + 7);
    }
    for key in 0..1024 {
        assert_eq!(map.get(key * 64 + 3), (key as u16 + 1, key as u32 + 7));
    }
    assert_eq!(map.get(5), (0, 0));
    map.set(67, 9, 9);
    assert_eq!(map.get(67), (9, 9));
    map.reset(4);
    assert_eq!(map.get(3), (0, 0));
    assert_eq!(map.count, 0);
}

#[test]
fn candidate_masks_walk_a_block_newest_to_oldest() {
    // A block of eight slots whose newest position is at slot 5, holding
    // three positions: slots 5, 6 and 7 become ages 0, 1 and 2.
    assert_eq!(rotate_candidates(u32::MAX, 8, 5, 3), 0b0000_0111);
    // Six positions: slots 5, 6, 7, then 0, 1, 2.
    assert_eq!(rotate_candidates(u32::MAX, 8, 5, 6), 0b0011_1111);
    // A full block visits everything; the equality mask filters it:
    // slots 3, 5, 7 and 1 are ages 1, 3, 5 and 7 from slot 2.
    assert_eq!(rotate_candidates(0b1010_1010, 8, 2, 8), 0b1010_1010);
    // Thirty-two lanes at the top of the word: slot 31 is age 0 and
    // slot 0 age 1.
    assert_eq!(rotate_candidates(u32::MAX, 32, 31, 32), u32::MAX);
    assert_eq!(rotate_candidates(1, 32, 31, 32), 0b10);
    // Nothing stored means nothing to walk, whatever the tags say.
    assert_eq!(rotate_candidates(u32::MAX, 16, 3, 0), 0);
}

#[test]
fn tag_equality_matches_scalar_comparison_on_every_backend() {
    fn check<const N: usize>(backend: Backend) {
        let tags: [u8; N] = std::array::from_fn(|i| (i % 5) as u8);
        for tag in 0..5u8 {
            let expected: u32 = tags
                .iter()
                .enumerate()
                .filter(|&(_, &value)| value == tag)
                .fold(0, |mask, (slot, _)| mask | 1 << slot);
            let actual = tag_equality(backend, &tags, tag);
            if backend == Backend::scalar() {
                assert_eq!(actual, u32::MAX);
            } else {
                assert_eq!(actual, expected, "{backend:?} {N} {tag}");
            }
        }
    }
    for backend in Backend::available() {
        check::<16>(backend);
        check::<32>(backend);
        // A starter block is too short for a vector compare.
        assert_eq!(
            tag_equality(backend, &[1, 2, 3, 4], 2),
            u32::MAX
        );
    }
}

/// A payload whose last third repeats the middle third.
///
/// The head deliberately differs, so position zero — which an empty table
/// hands back for every bucket — is never a match by accident.
fn repeated() -> Vec<u8> {
    let mut data: Vec<u8> = (0..64u32).map(|i| (i % 97) as u8 + 128).collect();
    let body: Vec<u8> = (0..64u32).map(|i| (i * 7 % 251) as u8 + 1).collect();
    data.extend_from_slice(&body);
    data.extend_from_slice(&body);
    data.extend_from_slice(&[0u8; 8]);
    data
}

/// Position the repeat starts at, and the distance back to its original.
const REPEAT_AT: usize = 128;

fn query<'a>(data: &'a [u8], cache: &'a DistanceCache, cur_ix: usize) -> MatchQuery<'a> {
    MatchQuery {
        data,
        window: data,
        mask: usize::MAX,
        cache,
        cur_ix,
        max_length: data.len() - cur_ix,
        max_backward: cur_ix,
        position_offset: 0,
        dictionary_limit: cur_ix,
        gap: 0,
        max_distance: u32::MAX as usize,
    }
}

fn search_at<M: Matcher + MatcherRuns>(matcher: &mut M, data: &[u8], cur_ix: usize) -> SearchResult {
    search_with(native(), matcher, data, cur_ix)
}

fn search_with<M: Matcher + MatcherRuns>(
    backend: Backend,
    matcher: &mut M,
    data: &[u8],
    cur_ix: usize,
) -> SearchResult {
    let cache = initial_distance_cache();
    let mut out = SearchResult::empty();
    let mut none = NoDictionary;
    let query = query(data, &cache, cur_ix);
    matcher.find_longest_match(backend, &mut none, &query, &mut out);
    out
}

/// Fills a matcher with the first `REPEAT_AT` positions of `data`.
fn primed<M: Matcher + MatcherRuns>(mut matcher: M, data: &[u8]) -> M {
    matcher.prepare(true, data.len(), data, true);
    matcher.store_range(data, usize::MAX, 0, REPEAT_AT);
    matcher
}

/// The bucket shape quality five resolves to.
const Q5_BUCKET: BucketShape = BucketShape {
    bucket_bits: 14,
    block_bits: 4,
    last_distances: 4,
};

/// The bucket shape quality nine resolves to.
const Q9_BUCKET: BucketShape = BucketShape {
    bucket_bits: 15,
    block_bits: 8,
    last_distances: 16,
};

/// The chain shape quality five resolves to.
const Q5_CHAIN: ChainShape = ChainShape {
    num_banks: 1,
    bank_bits: 16,
    last_distances: 4,
    max_hops: 16,
};

/// The chain shape quality nine resolves to.
const Q9_CHAIN: ChainShape = ChainShape {
    num_banks: 512,
    bank_bits: 9,
    last_distances: 16,
    max_hops: 224,
};

#[test]
fn the_quick_matcher_finds_a_repeat_it_has_stored() {
    let data = repeated();
    let mut matcher = primed(QuickMatcher::<{ 1 << 16 }, 1, 5, false, false>::new(), &data);
    let found = search_at(&mut matcher, &data, REPEAT_AT);
    assert!(found.is_match());
    assert_eq!((found.distance, found.len), (64, 64));
}

#[test]
fn every_quick_shape_finds_the_same_repeat() {
    let data = repeated();

    let mut h4 = primed(QuickMatcher::<{ 1 << 17 }, 2, 5, true, false>::new(), &data);
    let found = search_at(&mut h4, &data, REPEAT_AT);
    assert_eq!((found.distance, found.len), (64, 64));

    let mut h54 = primed(QuickMatcher::<{ 1 << 20 }, 2, 7, false, false>::new(), &data);
    let found = search_at(&mut h54, &data, REPEAT_AT);
    assert_eq!((found.distance, found.len), (64, 64));
}

#[test]
fn the_bucket_matchers_find_a_repeat_they_have_stored() {
    let data = repeated();

    let mut h5 = primed(BucketMatcher::<false, { 1 << 14 }, 16>::new(0), &data);
    let found = search_at(&mut h5, &data, REPEAT_AT);
    assert_eq!((found.distance, found.len), (64, 64));

    let mut h6 = primed(BucketMatcher::<true, { 1 << 15 }, 16>::new(0), &data);
    let found = search_at(&mut h6, &data, REPEAT_AT);
    assert_eq!((found.distance, found.len), (64, 64));

    // The deepest bucket quality nine asks for finds the same repeat.
    let mut deep = primed(BucketMatcher::<false, { 1 << 15 }, 256>::new(0), &data);
    let found = search_at(&mut deep, &data, REPEAT_AT);
    assert_eq!((found.distance, found.len), (64, 64));
}

#[test]
fn the_chain_matchers_find_a_repeat_they_have_stored() {
    let data = repeated();
    let mut h40 = primed(ChainMatcher::<1, 16>::new(Q5_CHAIN), &data);
    let found = search_at(&mut h40, &data, REPEAT_AT);
    assert_eq!((found.distance, found.len), (64, 64));

    // H42 spreads the same chains over five hundred and twelve banks.
    let mut h42 = primed(ChainMatcher::<512, 9>::new(Q9_CHAIN), &data);
    let found = search_at(&mut h42, &data, REPEAT_AT);
    assert_eq!((found.distance, found.len), (64, 64));
}

#[test]
fn the_derived_distance_cache_brackets_the_two_freshest_entries() {
    let mut cache = initial_distance_cache();
    prepare_distance_cache(&mut cache, 4);
    assert_eq!(cache[4..], [0; 12]);

    prepare_distance_cache(&mut cache, 10);
    assert_eq!(cache[4..10], [3, 5, 2, 6, 1, 7]);
    // Nothing past the tenth entry is touched below the threshold.
    assert_eq!(cache[10..], [0; 6]);

    prepare_distance_cache(&mut cache, 16);
    assert_eq!(cache[10..], [10, 12, 9, 13, 8, 14]);
}

#[test]
fn a_deep_bucket_remembers_more_positions_than_a_shallow_one() {
    // Every position hashes to the same bucket, so the depth is exactly
    // how far back a match can still be found.
    let data = vec![b'a'; 1024];
    fn reach<const BLOCK: usize>(data: &[u8]) -> usize {
        let mut matcher = BucketMatcher::<false, { 1 << 15 }, BLOCK>::new(0);
        matcher.prepare(true, data.len(), data, true);
        matcher.store_range(data, usize::MAX, 0, 512);
        let found = search_at(&mut matcher, data, 512);
        assert!(found.is_match());
        found.distance
    }
    assert!(reach::<16>(&data) <= 16);
    assert!(reach::<256>(&data) <= 256);
}

#[test]
fn a_bucket_forgets_all_but_its_newest_sixteen_positions() {
    // Every position hashes to the same bucket, so a store past the
    // sixteenth has to push the oldest one out.
    let data = vec![b'a'; 256];
    let mut matcher = BucketMatcher::<false, { 1 << 14 }, 16>::new(0);
    matcher.prepare(true, data.len(), &data, true);
    matcher.store_range(&data, usize::MAX, 0, 100);
    let found = search_at(&mut matcher, &data, 100);
    assert!(found.is_match());
    assert!(found.distance <= 16);
}

#[test]
fn nothing_is_found_when_the_table_holds_no_candidate() {
    let data = repeated();
    let mut matcher = QuickMatcher::<{ 1 << 16 }, 1, 5, false, false>::new();
    matcher.prepare(true, data.len(), &data, true);
    assert!(!search_at(&mut matcher, &data, REPEAT_AT).is_match());

    let mut chain = ChainMatcher::<1, 16>::new(Q5_CHAIN);
    chain.prepare(true, data.len(), &data, true);
    assert!(!search_at(&mut chain, &data, REPEAT_AT).is_match());

    let mut bucket = BucketMatcher::<false, { 1 << 14 }, 16>::new(0);
    bucket.prepare(true, data.len(), &data, true);
    assert!(!search_at(&mut bucket, &data, REPEAT_AT).is_match());
}

#[test]
fn a_full_preparation_clears_what_a_previous_stream_stored() {
    let data = repeated();
    let mut matcher = primed(QuickMatcher::<{ 1 << 16 }, 1, 5, false, false>::new(), &data);
    assert!(search_at(&mut matcher, &data, REPEAT_AT).is_match());
    matcher.prepare(false, 0, &data, true);
    assert!(!search_at(&mut matcher, &data, REPEAT_AT).is_match());

    let mut chain = primed(ChainMatcher::<1, 16>::new(Q5_CHAIN), &data);
    assert!(search_at(&mut chain, &data, REPEAT_AT).is_match());
    chain.prepare(false, 0, &data, true);
    assert!(!search_at(&mut chain, &data, REPEAT_AT).is_match());

    let mut bucket = primed(BucketMatcher::<false, { 1 << 14 }, 16>::new(0), &data);
    assert!(search_at(&mut bucket, &data, REPEAT_AT).is_match());
    bucket.prepare(false, 0, &data, true);
    assert!(!search_at(&mut bucket, &data, REPEAT_AT).is_match());
}

#[test]
fn every_backend_agrees_on_the_match_it_finds() {
    let data = repeated();
    for block_bits in 4..=8 {
        let shape = BucketShape {
            bucket_bits: if block_bits <= 5 { 14 } else { 15 },
            block_bits,
            last_distances: 4,
        };
        for plan in [
            HasherPlan::H5(shape),
            HasherPlan::H6(BucketShape {
                bucket_bits: 15,
                ..shape
            }),
        ] {
            let mut results = Vec::new();
            for backend in Backend::available() {
                let finder = MatchFinder::for_plan(plan);
                let found = {
                    let mut matcher = primed(finder, &data);
                    search_with(backend, &mut matcher, &data, REPEAT_AT)
                };
                assert_eq!((found.distance, found.len), (64, 64));
                results.push(found);
            }
            assert!(results.windows(2).all(|pair| pair[0] == pair[1]));
        }
    }
}

/// A payload with three copies of the body, for the stitching tests.
fn thrice_repeated() -> Vec<u8> {
    let mut data = repeated();
    data.truncate(REPEAT_AT + 64);
    let body: Vec<u8> = data[64..REPEAT_AT].to_vec();
    data.extend_from_slice(&body);
    data.extend_from_slice(&[0u8; 8]);
    data
}

#[test]
fn stitching_stores_the_three_positions_before_the_boundary() {
    let data = thrice_repeated();
    let mut matcher = QuickMatcher::<{ 1 << 16 }, 1, 5, false, false>::new();
    matcher.prepare(true, data.len(), &data, true);
    matcher.stitch_to_previous_block(64, REPEAT_AT, &data, usize::MAX);
    // Position 125 was stored, so the position 64 further on repeats it.
    let found = search_at(&mut matcher, &data, REPEAT_AT + 61);
    assert!(found.is_match());
    assert_eq!(found.distance, 64);
}

#[test]
fn stitching_does_nothing_at_the_start_of_a_stream() {
    let data = thrice_repeated();
    let mut matcher = QuickMatcher::<{ 1 << 16 }, 1, 5, false, false>::new();
    matcher.prepare(true, data.len(), &data, true);
    matcher.stitch_to_previous_block(64, 2, &data, usize::MAX);
    matcher.stitch_to_previous_block(1, REPEAT_AT, &data, usize::MAX);
    assert!(!search_at(&mut matcher, &data, REPEAT_AT + 61).is_match());
}

#[test]
fn the_plan_selects_the_matching_finder() {
    assert!(matches!(
        MatchFinder::for_plan(HasherPlan::H3),
        MatchFinder::H3(_)
    ));
    assert!(matches!(
        MatchFinder::for_plan(HasherPlan::H4),
        MatchFinder::H4(_)
    ));
    assert!(matches!(
        MatchFinder::for_plan(HasherPlan::H54),
        MatchFinder::H54(_)
    ));
    assert!(matches!(
        MatchFinder::for_plan(HasherPlan::Chain(Q5_CHAIN)),
        MatchFinder::H40(_)
    ));
    assert!(matches!(
        MatchFinder::for_plan(HasherPlan::Chain(Q9_CHAIN)),
        MatchFinder::H42(_)
    ));
    assert!(matches!(
        MatchFinder::for_plan(HasherPlan::H5(Q5_BUCKET)),
        MatchFinder::H5Q5(_)
    ));
    assert!(matches!(
        MatchFinder::for_plan(HasherPlan::H5(Q9_BUCKET)),
        MatchFinder::H5Q9(_)
    ));
    assert!(matches!(
        MatchFinder::for_plan(HasherPlan::H6(Q9_BUCKET)),
        MatchFinder::H6Q9(_)
    ));
}

#[test]
fn a_matcher_reports_the_cached_distance_count_its_shape_asked_for() {
    assert_eq!(
        BucketMatcher::<false, { 1 << 15 }, 256>::new(0).last_distances_to_check(),
        16
    );
    assert_eq!(
        ChainMatcher::<1, 16>::new(Q5_CHAIN).last_distances_to_check(),
        4
    );
    assert_eq!(
        ChainMatcher::<512, 9>::new(Q9_CHAIN).last_distances_to_check(),
        16
    );
    // The quick matchers always use the plain four.
    assert_eq!(
        QuickMatcher::<{ 1 << 16 }, 1, 5, false, false>::new().last_distances_to_check(),
        NUM_REMEMBERED_DISTANCES
    );
}

#[test]
fn a_search_that_finds_nothing_leaves_the_candidate_as_it_was() {
    fn kept<M: Matcher + MatcherRuns>(mut matcher: M) {
        let data = repeated();
        matcher.prepare(true, data.len(), &data, true);
        let cache = initial_distance_cache();
        let held = SearchResult {
            len: 5,
            distance: 9,
            score: 1_000_000,
            len_code_delta: 2,
        };
        let mut out = held;
        let query = query(&data, &cache, REPEAT_AT);
        matcher.find_longest_match(native(), &mut NoDictionary, &query, &mut out);
        assert_eq!(out, held);
    }
    kept(QuickMatcher::<{ 1 << 16 }, 1, 5, false, false>::new());
    kept(ChainMatcher::<1, 16>::new(Q5_CHAIN));
    kept(BucketMatcher::<false, { 1 << 14 }, 16>::new(0));
}

#[test]
fn stitching_needs_all_but_one_of_the_bytes_a_hash_reads() {
    let data = thrice_repeated();
    for (num_bytes, found) in [(6, false), (7, true)] {
        let mut matcher = QuickMatcher::<{ 1 << 16 }, 1, 5, false, false>::new();
        matcher.prepare(true, data.len(), &data, true);
        matcher.stitch_to_previous_block(num_bytes, REPEAT_AT, &data, usize::MAX);
        assert_eq!(
            search_at(&mut matcher, &data, REPEAT_AT + 61).is_match(),
            found,
            "{num_bytes}"
        );
    }
}
