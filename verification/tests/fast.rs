use mbrotli::backend::Backend;
use mbrotli::config::{BrotliCompressError, CompressParams, QualityLevel, WindowBits};
use mbrotli::fast::codes::{
    accumulate_sampled, literal_ratio, literal_weights, order_command_depths, restore_command_bits,
    scatter_command_depths,
};
use mbrotli::fast::constants::{
    BLOCK_SAMPLE_RATE, CODE_LENGTH_CODES, HASH_MUL32, LITERAL_SAMPLE_RATE, LONG_INSERT_LIMIT,
    MAX_BACKWARD_DISTANCE, NUM_COMMAND_SYMBOLS, NUM_LITERAL_SYMBOLS, Q0_FIRST_BLOCK_SIZE,
    Q0_MAX_HASH_ENTRIES, Q0_MAX_MERGED_BLOCK_SIZE, Q0_MERGE_BLOCK_SIZE, Q1_BLOCK_SIZE,
    Q1_MAX_HASH_ENTRIES, SHORT_INSERT_LIMIT, WINDOW_BITS_FAST, WINDOW_GAP,
};
use mbrotli::fast::encoder::{encode_window_bits, FastEncoder, FastQuality};
use mbrotli::fast::fragment::{FragmentCoder, GiveUp};
use mbrotli::fast::q0::{
    hash, hash_bytes_at_offset, is_match, should_use_uncompressed_mode, BlockCosts, TableBits, Token,
};
use mbrotli::shared::match_len::load_u64_le;

#[test]
fn constants_match_the_reference_encoder() {
    assert_eq!(HASH_MUL32, 0x1E35_A7BD);
    assert_eq!(WINDOW_BITS_FAST, 18);
    assert_eq!(WINDOW_GAP, 16);
    assert_eq!(MAX_BACKWARD_DISTANCE, 262_128);
    assert_eq!(Q0_MAX_HASH_ENTRIES, 32_768);
    assert_eq!(Q1_MAX_HASH_ENTRIES, 131_072);
    assert_eq!(Q0_FIRST_BLOCK_SIZE, 98_304);
    assert_eq!(Q0_MERGE_BLOCK_SIZE, 65_536);
    assert_eq!(Q0_MAX_MERGED_BLOCK_SIZE, 1_048_576);
    assert_eq!(Q1_BLOCK_SIZE, 131_072);
    assert_eq!(LITERAL_SAMPLE_RATE, 29);
    assert_eq!(BLOCK_SAMPLE_RATE, 43);
    assert_eq!(SHORT_INSERT_LIMIT, 6_210);
    assert_eq!(LONG_INSERT_LIMIT, 22_594);
    assert_eq!(NUM_COMMAND_SYMBOLS, 704);
    assert_eq!(CODE_LENGTH_CODES, 18);
}


#[test]
fn window_header_matches_the_reference_encoding() {
    assert_eq!(encode_window_bits(16), (0, 1));
    assert_eq!(encode_window_bits(17), (1, 7));
    assert_eq!(encode_window_bits(18), (3, 4));
    assert_eq!(encode_window_bits(22), (11, 4));
    assert_eq!(encode_window_bits(24), (15, 4));
    assert_eq!(encode_window_bits(10), (0x21, 7));
}

#[test]
fn quality_routing_accepts_only_the_fast_path() {
    assert_eq!(
        FastQuality::try_from(QualityLevel::Q0).ok(),
        Some(FastQuality::Q0)
    );
    assert_eq!(
        FastQuality::try_from(QualityLevel::Q1).ok(),
        Some(FastQuality::Q1)
    );
    assert!(matches!(
        FastQuality::try_from(QualityLevel::Q5),
        Err(BrotliCompressError::UnsupportedQuality(5))
    ));
}

#[test]
fn block_size_limit_follows_the_requested_window() -> Result<(), BrotliCompressError> {
    for lgwin in [10u8, 16, 18, 22, 24] {
        let lgwin_bits = WindowBits::standard(lgwin).unwrap_or_default();
        let params = CompressParams::new(QualityLevel::Q0, lgwin_bits);
        let encoder = FastEncoder::new(&params)?;
        assert_eq!(encoder.block_size_limit(), 1 << usize::from(lgwin_bits));
    }
    Ok(())
}

#[test]
fn table_sizing_depends_on_the_quality() {
    assert_eq!(FastQuality::Q0.table_entries(10), 512);
    assert_eq!(FastQuality::Q1.table_entries(10), 256);
    assert_eq!(
        FastQuality::Q0.table_entries(1 << 20),
        32_768
    );
    assert_eq!(
        FastQuality::Q1.table_entries(1 << 20),
        131_072
    );
}

/// The base-two logarithm the merge decision prices symbols with.
fn fast_log2(value: usize) -> f64 {
    if value == 0 {
        0.0
    } else {
        (value as f64).log2()
    }
}

/// Decides whether the next chunk should extend the current meta-block: whether
/// the sampled literals cost no more under the current code than a new one would.
fn should_merge_block(data: &[u8], depths: &[u8; NUM_LITERAL_SYMBOLS]) -> bool {
    let sample = accumulate_sampled(data, BLOCK_SAMPLE_RATE);
    let total = data.len().div_ceil(BLOCK_SAMPLE_RATE);
    let mut r = (fast_log2(total) + 0.5) * total as f64 + 200.0;
    for (index, &count) in sample.data.iter().enumerate() {
        r -= f64::from(count) * (f64::from(depths[index]) + fast_log2(count as usize));
    }
    r >= 0.0
}

#[test]
fn table_width_follows_the_reference_selection() {
    assert_eq!(TableBits::for_input(0), TableBits::B9);
    assert_eq!(TableBits::for_input(256), TableBits::B9);
    assert_eq!(TableBits::for_input(512), TableBits::B9);
    assert_eq!(TableBits::for_input(513), TableBits::B11);
    assert_eq!(TableBits::for_input(2048), TableBits::B11);
    assert_eq!(TableBits::for_input(2049), TableBits::B13);
    assert_eq!(TableBits::for_input(8192), TableBits::B13);
    assert_eq!(TableBits::for_input(8193), TableBits::B15);
    assert_eq!(TableBits::for_input(1 << 24), TableBits::B15);
}

#[test]
fn table_width_reports_matching_entry_counts() {
    assert_eq!(TableBits::B9.entries(), 512);
    assert_eq!(TableBits::B11.entries(), 2048);
    assert_eq!(TableBits::B13.entries(), 8192);
    assert_eq!(TableBits::B15.entries(), 32_768);
}

#[test]
fn hash_matches_the_reference_formula() {
    let data = [1u8, 2, 3, 4, 5, 6, 7, 8, 9];
    let word = u64::from_le_bytes([1, 2, 3, 4, 5, 6, 7, 8]);
    let expected = (((word << 24).wrapping_mul(u64::from(HASH_MUL32))) >> (64 - 13)) as usize;
    assert_eq!(hash(&data, 0, 13), expected);
}

#[test]
fn hash_at_offset_matches_hashing_the_shifted_position() {
    let data = [9u8, 8, 7, 6, 5, 4, 3, 2, 1, 0, 11, 12];
    let word = load_u64_le(&data, 0);
    for offset in 0..=3u32 {
        assert_eq!(
            hash_bytes_at_offset(word, offset, 15),
            hash(&data, offset as usize, 15)
        );
    }
}

#[test]
fn fixed_predicate_needs_five_equal_bytes() {
    // Padded so both windows keep the eight readable bytes the wide
    // predicate needs, exactly as the scan guarantees.
    let mut data = vec![1u8, 2, 3, 4, 5, 1, 2, 3, 4, 5, 1, 2, 3, 4, 6];
    data.extend_from_slice(&[0u8; 16]);
    assert!(is_match(&data, 0, 5));
    assert!(!is_match(&data, 0, 10));
}

#[test]
fn fixed_predicate_ignores_bytes_past_the_fifth() {
    let mut data = vec![1u8, 2, 3, 4, 5, 0xAA, 1, 2, 3, 4, 5, 0xBB];
    data.extend_from_slice(&[0u8; 16]);
    assert!(is_match(&data, 0, 6));
}

#[test]
fn uncompressed_heuristic_follows_the_reference_thresholds() {
    assert!(!should_use_uncompressed_mode(0, 100, 1000, 999));
    assert!(should_use_uncompressed_mode(0, 1, 1000, 999));
    assert!(!should_use_uncompressed_mode(0, 1, 1000, 980));
}

#[test]
fn block_merge_follows_the_cost_of_the_current_literal_code() {
    let mut random = vec![0u8; 65_536];
    let mut state = 12_345u32;
    for byte in random.iter_mut() {
        state = state.wrapping_mul(1_103_515_245).wrapping_add(12_345);
        *byte = (state >> 16) as u8;
    }

    // A code whose depths already match the data pays for itself.
    let matching = [8u8; NUM_LITERAL_SYMBOLS];
    assert!(should_merge_block(&random, &matching));

    // A code that is far too deep for the data does not.
    let mismatched = [15u8; NUM_LITERAL_SYMBOLS];
    assert!(!should_merge_block(&random, &mismatched));

    // A degenerate code over a single byte value always merges.
    let degenerate = [0u8; NUM_LITERAL_SYMBOLS];
    assert!(should_merge_block(
        &[0u8; 65_536],
        &degenerate
    ));
}

/// A coder that writes one byte per token, or far too much.
struct Tallied {
    swell: bool,
    tokens: Vec<Token>,
}

impl BlockCosts for Tallied {
    fn open(&mut self, _block: &[u8]) -> usize {
        500
    }

    fn merges(&mut self, _block: &[u8]) -> bool {
        true
    }
}

impl FragmentCoder for Tallied {
    fn write_tokens(
        &mut self,
        data: &[u8],
        tokens: &[Token],
        storage: Vec<u8>,
        position: usize,
    ) -> (Vec<u8>, usize) {
        self.tokens.extend_from_slice(tokens);
        let bits = if self.swell { 8 * data.len() + 64 } else { 16 };
        (storage, position + bits)
    }

    fn write_two_pass(
        &mut self,
        data: &[u8],
        table: &mut Vec<i32>,
        storage: Vec<u8>,
        position: usize,
    ) -> (Vec<u8>, usize) {
        assert!(table.len() >= data.len() || table.len() == 131_072);
        (storage, position + 8)
    }
}

fn fast_encoder(quality: QualityLevel) -> FastEncoder {
    FastEncoder::new(&CompressParams::new(quality, WindowBits::default())).expect("a fast quality")
}

#[test]
fn an_empty_fragment_closes_the_stream() {
    let mut coder = Tallied {
        swell: false,
        tokens: Vec::new(),
    };
    let mut encoder = fast_encoder(QualityLevel::Q0);
    let bytes = encoder
        .encode_block(Backend::scalar(), b"", true, &mut coder)
        .expect("closed");
    // The window header 1011 and the two bits of an empty last meta-block.
    assert_eq!(bytes, [0b0011_1011]);
    assert!(encoder.is_finished());
}

#[test]
fn a_fragment_becomes_tokens_that_reproduce_it() {
    let mut coder = Tallied {
        swell: false,
        tokens: Vec::new(),
    };
    let data = b"the quick brown fox jumps over the quick brown dog and the quick brown cat"
        .repeat(3);
    let mut encoder = fast_encoder(QualityLevel::Q0);
    let bytes = encoder
        .encode_block(Backend::scalar(), &data, false, &mut coder)
        .expect("encoded");
    assert_eq!(bytes.len(), 2);
    assert_eq!(encoder.last_bytes_bits, 4);
    let mut out: Vec<u8> = Vec::new();
    let mut copies = 0;
    for token in &coder.tokens {
        match *token {
            Token::Insert { from, len } => out.extend_from_slice(&data[from..from + len]),
            Token::Copy { len, distance, .. } => {
                copies += 1;
                for _ in 0..len {
                    let byte = out[out.len() - distance];
                    out.push(byte);
                }
            }
            Token::Raw { from, to } => {
                out.truncate(from);
                out.extend_from_slice(&data[from..to]);
            }
            _ => {}
        }
    }
    assert_eq!(out, data);
    assert!(copies > 0);
}

#[test]
fn a_fragment_that_swells_is_stored() {
    let mut coder = Tallied {
        swell: true,
        tokens: Vec::new(),
    };
    let data: Vec<u8> = (0..300u32).map(|i| (i * 31 % 256) as u8).collect();
    let mut encoder = fast_encoder(QualityLevel::Q0);
    let bytes = encoder
        .encode_block(Backend::scalar(), &data, true, &mut coder)
        .expect("stored");
    assert_eq!(&bytes[3..303], &data[..]);
    assert_eq!(bytes[303..], [3]);
}

#[test]
fn a_fragment_needs_room_for_the_worst() {
    let mut coder = Tallied {
        swell: false,
        tokens: Vec::new(),
    };
    let mut encoder = fast_encoder(QualityLevel::Q1);
    let mut dst = [0u8; 520];
    assert!(matches!(
        encoder.encode_block_into(Backend::scalar(), b"abcde", true, &mut dst, &mut coder),
        Err(BrotliCompressError::OutputTooSmall)
    ));
    let mut dst = [0u8; 521];
    assert!(encoder
        .encode_block_into(Backend::scalar(), b"abcde", true, &mut dst, &mut coder)
        .is_ok());
}

#[test]
fn literal_weights_favour_rare_symbols() {
    let weights = literal_weights(b"aaaaaaaaaaaaaaaaaaaab");
    assert_eq!(weights.data[usize::from(b'a')], 20 + 22);
    assert_eq!(weights.data[usize::from(b'b')], 3);
    let mut depths = [0u8; NUM_LITERAL_SYMBOLS];
    depths[usize::from(b'a')] = 1;
    depths[usize::from(b'b')] = 1;
    // One bit a literal is an eighth of a byte: 125 millibytes.
    assert_eq!(literal_ratio(&weights, &depths), 125);
}

#[test]
fn command_depths_are_reordered_and_scattered() {
    let depths: Vec<u8> = (0..64).collect();
    let ordered = order_command_depths(&depths);
    assert_eq!(ordered[24..32], [40, 41, 42, 43, 44, 45, 46, 47]);
    assert_eq!(ordered[32..40], [24, 25, 26, 27, 28, 29, 30, 31]);
    let codes: Vec<u16> = ordered.iter().map(|&d| u16::from(d)).collect();
    let bits = restore_command_bits(&codes);
    assert_eq!(bits, (0..64).collect::<Vec<u16>>());
    let full = scatter_command_depths(&depths);
    assert_eq!(full.len(), NUM_COMMAND_SYMBOLS);
    assert_eq!(full[64..72], [8, 9, 10, 11, 12, 13, 14, 15]);
    assert_eq!(full[128], 40);
    assert_eq!(full[448 + 56], 63);
}

#[test]
fn fixed_predicate_needs_eight_readable_bytes() {
    assert!(!is_match(&[9, 9, 9, 9], 0, 1));
    assert!(!is_match(&[9; 11], 0, 4));
    assert!(is_match(&[9; 12], 0, 4));
    assert!(!is_match(&[9; 12], 0, 5));
    assert!(!is_match(&[9; 12], usize::MAX, 0));
}

#[test]
fn a_coder_that_gives_up_leaves_the_bytes_as_they_are() {
    for quality in [QualityLevel::Q0, QualityLevel::Q1] {
        let mut encoder = fast_encoder(quality);
        let bytes = encoder
            .encode_block(Backend::scalar(), b"hello", true, &mut GiveUp)
            .expect("stored");
        assert_eq!(bytes, b"\x0b\x02\x80hello\x03");
        assert!(encoder.is_finished());
    }
}
