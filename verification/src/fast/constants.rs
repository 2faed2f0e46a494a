//! Constants the fast encoders share. Changing any of them changes the emitted
//! bitstream.
use vstd::prelude::*;

verus! {

/// Multiplier of both fast hash functions.
pub const HASH_MUL32: u32 = 0x1E35_A7BD;

/// Window size, in bits, the fast path always advertises in the stream header.
pub const WINDOW_BITS_FAST: usize = 18;

/// Bytes of the sliding window reserved as a margin.
pub const WINDOW_GAP: usize = 16;

/// Largest backward distance the fast path may emit.
pub const MAX_BACKWARD_DISTANCE: usize = 262_128;

/// Largest hash table quality 0 may use, in entries.
pub const Q0_MAX_HASH_ENTRIES: usize = 32_768;

/// Largest hash table quality 1 may use, in entries.
pub const Q1_MAX_HASH_ENTRIES: usize = 131_072;

/// Smallest hash table either quality may use, in entries.
pub const MIN_HASH_ENTRIES: usize = 256;

/// Fixed match length quality 0 probes for.
pub const Q0_MIN_MATCH: usize = 5;

/// Fixed match length quality 1 probes for in a small table.
pub const Q1_MIN_MATCH_SMALL: usize = 4;

/// Fixed match length quality 1 probes for in a large table.
pub const Q1_MIN_MATCH_LARGE: usize = 6;

/// Size of the first meta-block quality 0 opens.
pub const Q0_FIRST_BLOCK_SIZE: usize = 98_304;

/// Chunk quality 0 appends when it decides to extend a meta-block.
pub const Q0_MERGE_BLOCK_SIZE: usize = 65_536;

/// Largest meta-block quality 0 may grow to by merging.
pub const Q0_MAX_MERGED_BLOCK_SIZE: usize = 1_048_576;

/// Block size quality 1 processes in one two-pass round.
pub const Q1_BLOCK_SIZE: usize = 131_072;

/// Sampling stride of the quality 0 literal histogram for long inputs.
pub const LITERAL_SAMPLE_RATE: usize = 29;

/// Sampling stride of the block-entropy estimates.
pub const BLOCK_SAMPLE_RATE: usize = 43;

/// Quality 0 uncompressed-mode threshold, in millibytes per literal.
pub const Q0_MIN_RATIO: usize = 980;

/// Largest insert length quality 0 encodes through the short insert path.
pub const SHORT_INSERT_LIMIT: usize = 6_210;

/// Largest insert length encoded with fourteen extra bits.
pub const LONG_INSERT_LIMIT: usize = 22_594;

/// Number of symbols in the full command alphabet.
pub const NUM_COMMAND_SYMBOLS: usize = 704;

/// Number of symbols in the literal alphabet.
pub const NUM_LITERAL_SYMBOLS: usize = 256;

/// Number of symbols in the code-length alphabet.
pub const CODE_LENGTH_CODES: usize = 18;

/// Code-length symbol that repeats the previous non-zero length.
pub const REPEAT_PREVIOUS_CODE_LENGTH: usize = 16;

/// Code-length symbol that repeats a run of zero lengths.
pub const REPEAT_ZERO_CODE_LENGTH: usize = 17;

/// Code length assumed to precede the first emitted length.
pub const INITIAL_REPEATED_CODE_LENGTH: u8 = 8;

/// Bytes of slack a fast-path output buffer needs beyond `2 * len + 503`.
pub const OUTPUT_SLACK: usize = 8;

/// Constant term of the per-block output reservation, `2 * len + 503`.
pub const OUTPUT_RESERVE_CONST: usize = 503;

} // verus!
