use mbrotli::backend::Backend;
use mbrotli::config::{CompressParams, QualityLevel, WindowBits};
use mbrotli::greedy::backward_references::{
    compute_distance_code, create_backward_references, Command, ReferenceState,
};
use mbrotli::greedy::matcher::{DictionaryRequest, DictionarySource, Matcher, NoDictionary};
use mbrotli::greedy::params::{GreedyParams, GreedyQuality};
use mbrotli::greedy::quick::QuickMatcher;
use mbrotli::greedy::search::{
    initial_distance_cache, DistanceCache, SearchResult, NUM_REMEMBERED_DISTANCES,
};
use mbrotli::shared::ringbuffer::{BlockSpan, Window};

fn params(quality: QualityLevel) -> GreedyParams {
    let public = CompressParams::new(quality, WindowBits::default());
    GreedyParams::new(&public, 0).expect("supported quality")
}

/// Finds the references of the first `bytes` bytes of `data`.
fn run(quality: QualityLevel, data: &[u8], bytes: usize) -> (Vec<Command>, ReferenceState) {
    let params = params(quality);
    let mut matcher = QuickMatcher::<65536, 1, 5, false, false>::new();
    matcher.prepare(true, bytes, data, true);
    let mut state = ReferenceState::default();
    let mut commands = Vec::new();
    let window = Window {
        data,
        mask: usize::MAX,
    };
    let span = BlockSpan {
        position: 0,
        bytes: bytes as u32,
    };
    let backend = Backend::available().pop().unwrap_or(Backend::scalar());
    create_backward_references(
        backend,
        &mut matcher,
        &params,
        window,
        span,
        &mut NoDictionary,
        &mut NoDictionary,
        0,
        false,
        &mut state,
        &mut commands,
    );
    (commands, state)
}

/// Bytes the commands and the trailing literals account for.
fn consumed(commands: &[Command], state: &ReferenceState) -> usize {
    commands
        .iter()
        .map(|command| command.insert_len as usize + command.copy_len() as usize)
        .sum::<usize>()
        + state.last_insert_len
}

#[test]
fn every_input_byte_is_accounted_for() {
    for quality in [QualityLevel::Q3, QualityLevel::Q4, QualityLevel::Q5] {
        for payload in [
            b"abcabcabcabcabcabcabcabcabcabc".to_vec(),
            vec![b'z'; 5000],
            (0..5000u32).map(|i| (i % 251) as u8).collect(),
            Vec::new(),
            b"a".to_vec(),
        ] {
            let mut data = payload.clone();
            // The match finder loads whole words past the end.
            data.extend_from_slice(&[0u8; 8]);
            let (commands, state) = run(quality, &data, payload.len());
            assert_eq!(
                consumed(&commands, &state),
                payload.len(),
                "quality {quality:?}, {} bytes",
                payload.len()
            );
        }
    }
}

#[test]
fn a_repeated_string_becomes_one_long_copy() {
    let mut data = b"the quick brown fox ".repeat(40);
    data.extend_from_slice(&[0u8; 8]);
    let payload = data.len() - 8;
    let (commands, state) = run(QualityLevel::Q3, &data, payload);
    assert!(!commands.is_empty());
    let longest = commands
        .iter()
        .map(|command| command.copy_len())
        .max()
        .unwrap_or(0);
    assert!(longest > 500, "longest copy was only {longest}");
}

#[test]
fn incompressible_data_produces_no_commands() {
    let (commands, state) = run(QualityLevel::Q3, &[], 0);
    assert!(commands.is_empty());
    assert_eq!(state.last_insert_len, 0);
}

#[test]
fn the_distance_cache_only_records_real_distances() {
    let mut data = b"abcdefgh".repeat(200);
    data.extend_from_slice(&[0u8; 8]);
    let payload = data.len() - 8;
    let (commands, state) = run(QualityLevel::Q3, &data, payload);
    // Only the four remembered entries are history; the rest stay derived.
    assert!(
        state.dist_cache[..NUM_REMEMBERED_DISTANCES]
            .iter()
            .all(|&distance| distance > 0)
    );
}

#[test]
fn distance_codes_prefer_the_cache() {
    let cache: DistanceCache = initial_distance_cache();
    assert_eq!(compute_distance_code(4, 1 << 20, &cache), 0);
    assert_eq!(compute_distance_code(11, 1 << 20, &cache), 1);
    assert_eq!(compute_distance_code(15, 1 << 20, &cache), 2);
    assert_eq!(compute_distance_code(16, 1 << 20, &cache), 3);
    // One less than the last distance has its own short code.
    assert_eq!(compute_distance_code(3, 1 << 20, &cache), 4);
    assert_eq!(compute_distance_code(5, 1 << 20, &cache), 5);
    // Anything else is spelled out.
    assert_eq!(compute_distance_code(1000, 1 << 20, &cache), 1015);
    // Beyond the window a distance is always spelled out.
    assert_eq!(compute_distance_code(4, 3, &cache), 19);
}

#[test]
fn every_short_distance_code_is_in_range() {
    let cache: DistanceCache = initial_distance_cache();
    for distance in 1usize..64 {
        let code = compute_distance_code(distance, 1 << 20, &cache);
        assert!(code < 16 || code == distance + 15, "distance {distance}");
    }
}

#[test]
fn quality_five_searches_more_than_quality_four() {
    // The extensive search resets the delayed candidate length, so it can
    // pick a different, sometimes shorter but nearer, match.
    assert!(GreedyQuality::Q5.extensive_reference_search());
    assert!(!GreedyQuality::Q4.extensive_reference_search());
}

#[test]
fn the_commands_reproduce_the_input() {
    let mut data = b"one two one two three one two three four ".repeat(20);
    let bytes = data.len();
    data.extend_from_slice(&[0u8; 8]);
    let (commands, state) = run(QualityLevel::Q4, &data, bytes);
    let mut cache: Vec<usize> = vec![4, 11, 15, 16];
    let mut out: Vec<u8> = Vec::new();
    for command in &commands {
        let from = out.len();
        out.extend_from_slice(&data[from..from + command.insert_len]);
        let code = command.distance_code;
        let distance = if code < 4 {
            cache[code]
        } else if code >= 16 {
            code - 15
        } else {
            let near = [-1i64, 1, -2, 2, -3, 3];
            let base = if code < 10 { cache[0] } else { cache[1] };
            (base as i64 + near[(code - 4) % 6]) as usize
        };
        if code != 0 {
            cache.insert(0, distance);
            cache.truncate(4);
        }
        for _ in 0..command.copy_len() {
            let byte = out[out.len() - distance];
            out.push(byte);
        }
    }
    assert_eq!(out.len() + state.last_insert_len, bytes);
    assert_eq!(out, data[..out.len()]);
    assert!(!commands.is_empty());
}

#[test]
fn a_stretch_too_short_to_search_leaves_the_distances_alone() {
    let data = [0u8; 16];
    let (commands, state) = run(QualityLevel::Q3, &data, 3);
    assert!(commands.is_empty());
    assert_eq!(state.last_insert_len, 3);
    assert_eq!(state.dist_cache[..NUM_REMEMBERED_DISTANCES], [4, 11, 15, 16]);
}

/// A dictionary that has a word of eight bytes for its first request, and notes where it
/// begins at each.
struct Noted(Vec<usize>);

impl DictionarySource for Noted {
    fn lookup(&mut self, _data: &[u8], request: DictionaryRequest) -> Option<SearchResult> {
        self.0.push(request.distance);
        if self.0.len() > 1 {
            return None;
        }
        Some(SearchResult {
            len: 8,
            distance: request.distance + 1,
            score: request.score + 10_000,
            len_code_delta: 0,
        })
    }
}

#[test]
fn dictionaries_begin_past_what_precedes_the_stream() {
    let data: Vec<u8> = (0..64u8).collect();
    let window = Window {
        data: &data,
        mask: usize::MAX,
    };
    let span = BlockSpan {
        position: 0,
        bytes: 40,
    };
    for stream_offset in [0, 100, usize::MAX - 40] {
        let params = GreedyParams {
            stream_offset,
            ..params(QualityLevel::Q3)
        };
        let limit = (1 << 22) - 16;
        let mut matcher = QuickMatcher::<65536, 1, 5, false, false>::new();
        matcher.prepare(true, 40, &data, true);
        let mut state = ReferenceState::default();
        let mut commands = Vec::new();
        let mut prefix = Noted(Vec::new());
        create_backward_references(
            Backend::scalar(),
            &mut matcher,
            &params,
            window,
            span,
            &mut NoDictionary,
            &mut prefix,
            10,
            false,
            &mut state,
            &mut commands,
        );
        assert_eq!(prefix.0[0], stream_offset.min(limit));
        assert_eq!(prefix.0[1], (stream_offset + 1).min(limit));
        // The word becomes a command, and its distance is remembered.
        assert_eq!(commands[0].insert_len, 0);
        assert_eq!(commands[0].copy_len(), 8);
        assert_eq!(state.dist_cache[0] as usize, stream_offset.min(limit) + 1);
        assert_eq!(consumed(&commands, &state), 40);
    }
}
