//! The block loop of qualities 0 and 1: window header, table sizing, and the
//! partial byte carried from one fragment into the next.
use vstd::arithmetic::power2;
use vstd::prelude::*;

use crate::config::{BrotliCompressError, BrotliResult, CompressParams, QualityLevel};
use crate::fast::constants::{
    MIN_HASH_ENTRIES, OUTPUT_RESERVE_CONST, OUTPUT_SLACK, Q1_MAX_HASH_ENTRIES, WINDOW_BITS_FAST,
};
use crate::fast::q0::{TableBits, Token};
use crate::math;
use crate::shared::fast_log::next_power_of_two;
use crate::shared::reader;

verus! {

/// The two qualities this encoder implements.
#[derive(Copy, Clone, Debug, PartialEq, Eq, Structural)]
pub enum FastQuality {
    /// One-pass encoding.
    Q0,
    /// Two-pass encoding.
    Q1,
}

impl FastQuality {
    /// What routing a quality to the fast path gives.
    pub open spec fn route(value: QualityLevel) -> Result<Self, BrotliCompressError> {
        match value {
            QualityLevel::Q0 => Ok(FastQuality::Q0),
            QualityLevel::Q1 => Ok(FastQuality::Q1),
            other => Err(BrotliCompressError::UnsupportedQuality(other.number())),
        }
    }

    /// How many entries the hash table of a fragment has.
    pub open spec fn entries_for(self, input_size: int, entries: int) -> bool {
        match self {
            FastQuality::Q0 => {
                ||| entries == 512 && input_size <= 512
                ||| entries == 2048 && 512 < input_size <= 2048
                ||| entries == 8192 && 2048 < input_size <= 8192
                ||| entries == 32768 && input_size > 8192
            },
            FastQuality::Q1 => {
                &&& math::is_pow2(entries)
                &&& MIN_HASH_ENTRIES <= entries <= Q1_MAX_HASH_ENTRIES
                &&& input_size <= entries || entries == Q1_MAX_HASH_ENTRIES
                &&& entries == MIN_HASH_ENTRIES || entries < 2 * input_size
            },
        }
    }

    /// Returns the hash table size a fragment needs.
    pub fn table_entries(self, input_size: usize) -> (entries: usize)
        ensures
            self.entries_for(input_size as int, entries as int),
            MIN_HASH_ENTRIES <= entries <= Q1_MAX_HASH_ENTRIES,
    {
        proof {
            power2::lemma2_to64();
            assert(256 == power2::pow2(8));
            assert(131072 == power2::pow2(17));
        }
        match self {
            FastQuality::Q0 => TableBits::for_input(input_size).entries(),
            FastQuality::Q1 => {
                if input_size <= MIN_HASH_ENTRIES {
                    MIN_HASH_ENTRIES
                } else if input_size > Q1_MAX_HASH_ENTRIES {
                    Q1_MAX_HASH_ENTRIES
                } else {
                    let entries: usize = next_power_of_two(input_size);
                    proof {
                        if entries > Q1_MAX_HASH_ENTRIES {
                            let k = math::exponent(entries as int);
                            math::lemma_exponent(entries as int);
                            if k < 18 {
                                power2::lemma_pow2_strictly_increases(k, 18);
                            } else if k > 18 {
                                power2::lemma_pow2_strictly_increases(18, k);
                            }
                        }
                    }
                    entries
                }
            },
        }
    }
}

impl TryFrom<QualityLevel> for FastQuality {
    type Error = BrotliCompressError;

    /// Routes quality 0 and 1 to the fast path; every other quality is refused.
    fn try_from(value: QualityLevel) -> (result: Result<Self, BrotliCompressError>)
        ensures
            result == FastQuality::route(value),
    {
        match value {
            QualityLevel::Q0 => Ok(FastQuality::Q0),
            QualityLevel::Q1 => Ok(FastQuality::Q1),
            other => Err(BrotliCompressError::UnsupportedQuality(usize::from(other))),
        }
    }
}

impl vstd::std_specs::convert::TryFromSpecImpl<QualityLevel> for FastQuality {
    open spec fn obeys_try_from_spec() -> bool {
        true
    }

    open spec fn try_from_spec(value: QualityLevel) -> Result<Self, BrotliCompressError> {
        FastQuality::route(value)
    }
}

/// The header of a window size: its bits and how many there are.
pub open spec fn window_header(lgwin: int) -> (int, int) {
    if lgwin == 16 {
        (0, 1)
    } else if lgwin == 17 {
        (1, 7)
    } else if lgwin > 17 {
        (2 * (lgwin - 17) + 1, 4)
    } else {
        (16 * (lgwin - 8) + 1, 7)
    }
}

/// A window header reads back: a stream that begins with its bits announces the window,
/// and nothing else stands in them.
pub proof fn lemma_window_reads_back(lgwin: int, s: Seq<u8>)
    requires
        10 <= lgwin <= 24,
        s.len() >= 2,
        s[0] == window_header(lgwin).0,
    ensures
        reader::window_at(s, 0) == Some((lgwin, window_header(lgwin).1)),
        0 <= window_header(lgwin).0 < power2::pow2(window_header(lgwin).1 as nat),
{
    let value = window_header(lgwin).0 + 256 * s[1];
    power2::lemma2_to64();
    reader::lemma_window_value(s, value);
    assert(value % 256 == s[0]);
    assert(value % 2 == s[0] as int % 2);
    assert(value / 2 % 8 == s[0] as int / 2 % 8);
    assert(value / 16 % 8 == s[0] as int / 16 % 8);
}

/// Encodes the stream header for an effective window size.
///
/// The fast path never uses the large-window extension, so the header is at
/// most seven bits wide.
pub fn encode_window_bits(lgwin: usize) -> (header: (u16, u32))
    requires
        10 <= lgwin <= 24,
    ensures
        (header.0 as int, header.1 as int) == window_header(lgwin as int),
        header.0 < power2::pow2(header.1 as nat),
        1 <= header.1 <= 7,
{
    proof {
        power2::lemma2_to64();
    }
    if lgwin == 16 {
        (0, 1)
    } else if lgwin == 17 {
        (1, 7)
    } else if lgwin > 17 {
        ((2 * (lgwin - 17) + 1) as u16, 4)
    } else {
        ((16 * (lgwin - 8) + 1) as u16, 7)
    }
}

/// What a coder is to write.
pub enum Matter {
    /// The tokens of a fragment.
    Tokens(Seq<Token>),
    /// The fragment in two passes, with this table.
    TwoPass(Seq<i32>),
}

/// What a coder was asked to write, and what it made of it.
pub struct Writing {
    /// The fragment.
    pub data: Seq<u8>,
    /// What to write of it.
    pub matter: Matter,
    /// What the storage held.
    pub storage: Seq<u8>,
    /// Where the bits were to begin.
    pub start: int,
    /// What the storage holds now.
    pub made: Seq<u8>,
    /// Where the bits end.
    pub end: int,
}

/// What the block loop of qualities 0 and 1 carries between fragments.
pub struct FastEncoder {
    /// Which of the two qualities.
    pub quality: FastQuality,
    /// The largest fragment.
    pub block_size_limit: usize,
    /// The partial byte, or the stream header before the first fragment.
    pub last_bytes: u16,
    /// How many of its bits are in use.
    pub last_bytes_bits: u32,
    /// The hash table.
    pub table: Vec<i32>,
    /// Whether the final meta-block has been written.
    pub finished: bool,
    /// What the coder was asked last.
    pub writing: Ghost<Option<Writing>>,
}

impl FastEncoder {
    /// The carried bits fit their count.
    pub open spec fn wf(&self) -> bool {
        &&& self.last_bytes_bits <= 7
        &&& self.last_bytes < power2::pow2(self.last_bytes_bits as nat)
    }

    /// The window the stream header advertises.
    pub open spec fn advertised(lgwin: int) -> int {
        if lgwin < WINDOW_BITS_FAST {
            WINDOW_BITS_FAST as int
        } else {
            lgwin
        }
    }

    /// Creates an encoder for `params`.
    ///
    /// The fast path always advertises at least eighteen window bits, while still
    /// cutting the input at the requested window size. A quality outside the range
    /// this encoder implements is refused.
    pub fn new(params: &CompressParams) -> (result: BrotliResult<Self>)
        requires
            params@.lgwin.value() <= 24,
        ensures
            match FastQuality::route(params@.quality) {
                Err(error) => result == Err::<Self, _>(error),
                Ok(quality) => {
                    &&& result is Ok
                    &&& result->Ok_0.wf()
                    &&& result->Ok_0.quality == quality
                    &&& result->Ok_0.block_size_limit == power2::pow2(
                        params@.lgwin.value() as nat,
                    )
                    &&& (
                        result->Ok_0.last_bytes as int,
                        result->Ok_0.last_bytes_bits as int,
                    ) == window_header(Self::advertised(params@.lgwin.value() as int))
                    &&& result->Ok_0.table@.len() == 0
                    &&& !result->Ok_0.finished
                },
            },
    {
        let quality: FastQuality = match FastQuality::try_from(params.quality()) {
            Ok(quality) => quality,
            Err(error) => return Err(error),
        };
        let lgwin: usize = params.lgwin().bits() as usize;
        let (last_bytes, last_bytes_bits) = encode_window_bits(
            if lgwin < WINDOW_BITS_FAST {
                WINDOW_BITS_FAST
            } else {
                lgwin
            },
        );
        proof {
            math::lemma_one_shl(lgwin);
        }
        Ok(
            FastEncoder {
                quality,
                block_size_limit: 1usize << lgwin,
                last_bytes,
                last_bytes_bits,
                table: Vec::new(),
                finished: false,
                writing: Ghost(None),
            },
        )
    }

    /// Returns the largest fragment this encoder compresses in one go.
    pub fn block_size_limit(&self) -> (limit: usize)
        ensures
            limit == self.block_size_limit,
    {
        self.block_size_limit
    }

    /// Returns whether the final meta-block has already been written.
    pub fn is_finished(&self) -> (finished: bool)
        ensures
            finished == self.finished,
    {
        self.finished
    }

    /// Returns the scratch capacity one fragment of `input_len` bytes needs.
    ///
    /// This is `2 * input_len + 503`, plus the headroom the bit writer's
    /// whole-word stores reach past the last bit; a sum that does not fit is
    /// refused.
    pub fn fragment_reserve(input_len: usize) -> (result: BrotliResult<usize>)
        ensures
            2 * input_len + 511 <= usize::MAX ==> result == Ok::<usize, BrotliCompressError>(
                (2 * input_len + 511) as usize,
            ),
            2 * input_len + 511 > usize::MAX ==> result == Err::<usize, _>(
                BrotliCompressError::BufferOverflow,
            ),
    {
        match input_len.checked_mul(2) {
            None => Err(BrotliCompressError::BufferOverflow),
            Some(doubled) => match doubled.checked_add(OUTPUT_RESERVE_CONST) {
                None => Err(BrotliCompressError::BufferOverflow),
                Some(reserve) => match reserve.checked_add(OUTPUT_SLACK) {
                    None => Err(BrotliCompressError::BufferOverflow),
                    Some(reserve) => Ok(reserve),
                },
            },
        }
    }

    /// Clears the hash table for a fragment of `input_len` bytes.
    pub fn prepare_table(&mut self, input_len: usize) -> (entries: usize)
        ensures
            old(self).quality.entries_for(input_len as int, entries as int),
            *final(self) == (FastEncoder { table: final(self).table, ..*old(self) }),
            entries <= final(self).table@.len(),
            final(self).table@.len() == if old(self).table@.len() < entries {
                entries as nat
            } else {
                old(self).table@.len()
            },
            forall|i: int| 0 <= i < entries ==> #[trigger] final(self).table@[i] == 0,
            forall|i: int|
                entries <= i < final(self).table@.len() ==> #[trigger] final(self).table@[i] == old(self).table@[i],
    {
        let entries: usize = self.quality.table_entries(input_len);
        if self.table.len() < entries {
            self.table = vec![0i32; entries];
        } else {
            // Only the active range is cleared; unused capacity stays untouched.
            let mut i: usize = 0;
            while i < entries
                invariant
                    i <= entries,
                    entries <= self.table@.len(),
                    self.table@.len() == old(self).table@.len(),
                    *self == (FastEncoder { table: self.table, ..*old(self) }),
                    forall|j: int| 0 <= j < i ==> #[trigger] self.table@[j] == 0,
                    forall|j: int|
                        i <= j < self.table@.len() ==> #[trigger] self.table@[j] == old(self).table@[j],
                decreases entries - i,
            {
                self.table.set(i, 0);
                i += 1;
            }
        }
        entries
    }

    /// Puts the carried bits at the start of a fragment's storage; returns where
    /// the fragment's bits begin.
    pub fn seed_storage(&self, storage: &mut [u8]) -> (position: usize)
        requires
            self.wf(),
            old(storage)@.len() >= 2,
        ensures
            position == self.last_bytes_bits,
            final(storage)@ == old(storage)@.update(0, self.last_bytes as u8).update(1, 0),
            self.last_bytes as u8 == self.last_bytes,
    {
        proof {
            power2::lemma2_to64();
            if self.last_bytes_bits < 7 {
                power2::lemma_pow2_strictly_increases(self.last_bytes_bits as nat, 7);
            }
        }
        storage[0] = self.last_bytes as u8;
        storage[1] = 0;
        self.last_bytes_bits as usize
    }

    /// Takes what a fragment left behind: where its bits end, the byte they end
    /// in, and whether the storage proved too small.
    ///
    /// Returns how many whole bytes are complete; the partial byte is carried.
    pub fn settle_fragment(&mut self, position: usize, partial: u8, overflowed: bool, is_last: bool) -> (result:
        BrotliResult<usize>)
        requires
            old(self).wf(),
            !overflowed ==> partial < power2::pow2((position % 8) as nat),
        ensures
            overflowed ==> {
                &&& result == Err::<usize, _>(BrotliCompressError::BufferOverflow)
                &&& *final(self) == *old(self)
            },
            !overflowed ==> {
                &&& result == Ok::<usize, BrotliCompressError>((position / 8) as usize)
                &&& *final(self) == (FastEncoder {
                    last_bytes: partial as u16,
                    last_bytes_bits: (position % 8) as u32,
                    finished: is_last,
                    ..*old(self)
                })
                &&& final(self).wf()
            },
    {
        if overflowed {
            return Err(BrotliCompressError::BufferOverflow);
        }
        self.last_bytes = partial as u16;
        self.last_bytes_bits = (position % 8) as u32;
        self.finished = is_last;
        Ok(position / 8)
    }
}

} // verus!
