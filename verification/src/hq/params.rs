//! What the high-quality encoders resolve a caller's parameters to.
use vstd::arithmetic::power2;
use vstd::prelude::*;

use crate::config;
use crate::config::{BrotliCompressError, CompressParams, QualityLevel, WindowBits};
use crate::fast::encoder;
use crate::fast::encoder::encode_window_bits;
use crate::greedy::params;
use crate::greedy::params::{
    choose_distance_params, GreedyQuality, MAX_INPUT_BLOCK_BITS, MIN_INPUT_BLOCK_BITS, WINDOW_GAP,
};
use crate::hq::update::Effort;
use crate::math;
use crate::shared::distance::DistanceParams;
use crate::shared::reader;

verus! {

/// The widest window the encoder keeps, as a power of two.
pub const MAX_KEPT_WINDOW_BITS: usize = 30;

/// The qualities this encoder implements.
#[derive(Copy, Clone, Debug, PartialEq, Eq, Structural)]
pub enum HqQuality {
    /// One pass over the block.
    Q10,
    /// Two passes, the second priced by the commands of the first.
    Q11,
}

impl HqQuality {
    /// The quality this encoder runs a requested one at.
    pub open spec fn route(value: QualityLevel) -> Result<Self, BrotliCompressError> {
        match value {
            QualityLevel::Q10 => Ok(HqQuality::Q10),
            QualityLevel::Q11 => Ok(HqQuality::Q11),
            other => Err(BrotliCompressError::UnsupportedQuality(other.number())),
        }
    }
}

impl TryFrom<QualityLevel> for HqQuality {
    type Error = BrotliCompressError;

    /// Accepts the two highest qualities.
    fn try_from(value: QualityLevel) -> (result: Result<Self, BrotliCompressError>) {
        match value {
            QualityLevel::Q10 => Ok(HqQuality::Q10),
            QualityLevel::Q11 => Ok(HqQuality::Q11),
            other => Err(BrotliCompressError::UnsupportedQuality(usize::from(other))),
        }
    }
}

impl vstd::std_specs::convert::TryFromSpecImpl<QualityLevel> for HqQuality {
    open spec fn obeys_try_from_spec() -> bool {
        true
    }

    open spec fn try_from_spec(value: QualityLevel) -> Result<Self, BrotliCompressError> {
        HqQuality::route(value)
    }
}

/// The input block size, as a power of two: sixteen bits unless the window is
/// wider, then up to eighteen; a request is kept inside the format's range.
pub open spec fn block_bits(lgwin: int, requested: Option<usize>) -> int {
    match requested {
        None => if lgwin <= 16 {
            16
        } else if lgwin <= 18 {
            lgwin
        } else {
            18
        },
        Some(bits) => if bits < MIN_INPUT_BLOCK_BITS {
            MIN_INPUT_BLOCK_BITS as int
        } else if bits > MAX_INPUT_BLOCK_BITS {
            MAX_INPUT_BLOCK_BITS as int
        } else {
            bits as int
        },
    }
}

/// The block size is the window's, as near as a block comes to it: between sixteen and
/// eighteen bits of its own accord, and between the least and the most there is where one is
/// asked for.
pub proof fn lemma_block_fits_window(lgwin: int, asked: usize)
    ensures
        16 <= block_bits(lgwin, None) <= 18,
        block_bits(lgwin, None) > 16 ==> block_bits(lgwin, None) <= lgwin,
        block_bits(lgwin, None) < 18 ==> block_bits(lgwin, None) >= lgwin,
        16 <= block_bits(lgwin, Some(asked)) <= 24,
        block_bits(lgwin, Some(asked)) > 16 ==> block_bits(lgwin, Some(asked)) <= asked,
        block_bits(lgwin, Some(asked)) < 24 ==> block_bits(lgwin, Some(asked)) >= asked,
{
}

/// The header of a window.
pub open spec fn stream_header(bits: int, large: bool) -> (int, int) {
    if large {
        (256 * bits + 17, 14)
    } else {
        encoder::window_header(bits)
    }
}

/// The header of a window reads back: a stream that begins with its bytes announces the
/// window.
pub proof fn lemma_header_reads_back(bits: int, large: bool, s: Seq<u8>)
    requires
        10 <= bits <= if large {
            62int
        } else {
            24
        },
        s.len() >= 2,
        s[0] == stream_header(bits, large).0 % 256,
        large ==> s[1] == stream_header(bits, large).0 / 256,
    ensures
        reader::window_at(s, 0) == Some((bits, stream_header(bits, large).1)),
{
    if large {
        let value = s[0] + 256 * s[1];
        reader::lemma_window_value(s, value);
        assert(value == 256 * bits + 17);
        assert(value % 2 == 1 && value / 2 % 8 == 0 && value / 16 % 8 == 1);
        assert(value / 128 % 2 == 0 && value / 256 % 64 == bits);
    } else {
        encoder::lemma_window_reads_back(bits, s);
    }
}

/// Every parameter the high-quality encoder needs.
#[derive(Copy, Clone, Debug)]
pub struct HqParams {
    /// Quality this encoder runs at.
    pub quality: HqQuality,
    /// The window the stream announces.
    pub window: WindowBits,
    /// Base-2 logarithm of the window that is kept.
    pub lgwin: usize,
    /// Base-2 logarithm of the input block size.
    pub lgblock: usize,
    /// Distance alphabet.
    pub dist: DistanceParams,
}

impl HqParams {
    /// The window and block sizes are ones an encoder uses.
    pub open spec fn wf(&self) -> bool {
        &&& 10 <= self.lgwin <= MAX_KEPT_WINDOW_BITS
        &&& MIN_INPUT_BLOCK_BITS <= self.lgblock <= MAX_INPUT_BLOCK_BITS
        &&& self.dist.postfix_bits <= 3
        &&& self.dist.num_direct <= 120
        &&& self.dist.max_distance <= 0x7FFF_FFFF
    }

    /// What a caller's parameters resolve to, for a supported quality.
    pub open spec fn resolved(settings: config::Settings, quality: HqQuality) -> Self {
        let announced = settings.lgwin.value() as usize;
        let lgwin = if announced < MAX_KEPT_WINDOW_BITS {
            announced
        } else {
            MAX_KEPT_WINDOW_BITS
        };
        HqParams {
            quality,
            window: settings.lgwin,
            lgwin,
            lgblock: block_bits(
                lgwin as int,
                match settings.lgblock {
                    Some(bits) => Some(bits.value()),
                    None => None,
                },
            ) as usize,
            dist: params::distance_choice(
                GreedyQuality::Q5,
                settings.mode,
                settings.distance_codes,
            ),
        }
    }

    /// Resolves a caller's parameters.
    ///
    /// A quality outside the range this encoder implements is refused.
    pub fn new(settings: &CompressParams) -> (result: Result<Self, BrotliCompressError>)
        ensures
            match HqQuality::route(settings@.quality) {
                Ok(quality) => result == Ok::<Self, BrotliCompressError>(
                    Self::resolved(settings@, quality),
                ),
                Err(error) => result == Err::<Self, _>(error),
            },
            result is Ok ==> result->Ok_0.wf(),
    {
        let quality: HqQuality = match HqQuality::try_from(settings.quality()) {
            Ok(quality) => quality,
            Err(error) => return Err(error),
        };
        proof {
            power2::lemma2_to64();
        }
        let window: WindowBits = settings.lgwin();
        let announced: usize = window.bits() as usize;
        let lgwin: usize = if announced < MAX_KEPT_WINDOW_BITS {
            announced
        } else {
            MAX_KEPT_WINDOW_BITS
        };
        let lgblock: usize = match settings.lgblock() {
            None => if lgwin <= 16 {
                16
            } else if lgwin <= 18 {
                lgwin
            } else {
                18
            },
            Some(requested) => {
                let bits: usize = usize::from(requested);
                if bits < MIN_INPUT_BLOCK_BITS {
                    MIN_INPUT_BLOCK_BITS
                } else if bits > MAX_INPUT_BLOCK_BITS {
                    MAX_INPUT_BLOCK_BITS
                } else {
                    bits
                }
            },
        };
        Ok(
            HqParams {
                quality,
                window,
                lgwin,
                lgblock,
                dist: choose_distance_params(
                    GreedyQuality::Q5,
                    settings.mode(),
                    settings.distance_codes(),
                ),
            },
        )
    }

    /// Returns the stream header: its bits and how many there are.
    ///
    /// The large-window extension announces the window in six bits of its own.
    pub fn header(&self) -> (header: (u16, u32))
        ensures
            (header.0 as int, header.1 as int) == stream_header(
                self.window.value() as int,
                self.window.large_header(),
            ),
            1 <= header.1 <= 14,
            header.0 < power2::pow2(header.1 as nat),
    {
        let bits: usize = self.window.bits() as usize;
        if self.window.is_large() {
            proof {
                power2::lemma2_to64();
            }
            ((256 * bits + 17) as u16, 14)
        } else {
            encode_window_bits(bits)
        }
    }

    /// Returns the number of bytes one step may consume.
    pub fn input_block_size(&self) -> (size: usize)
        requires
            self.wf(),
        ensures
            size == power2::pow2(self.lgblock as nat),
            0x1_0000 <= size <= 0x100_0000,
    {
        proof {
            math::lemma_one_shl(self.lgblock);
            power2::lemma2_to64();
            if self.lgblock > 16 {
                power2::lemma_pow2_strictly_increases(16, self.lgblock as nat);
            }
            if self.lgblock < 24 {
                power2::lemma_pow2_strictly_increases(self.lgblock as nat, 24);
            }
        }
        1usize << self.lgblock
    }

    /// The ring buffer's window size in bits.
    pub open spec fn ring_bits(&self) -> int {
        1 + if self.lgwin > self.lgblock {
            self.lgwin
        } else {
            self.lgblock
        }
    }

    /// A block fits the ring buffer.
    pub proof fn lemma_block_fits(&self)
        requires
            self.wf(),
        ensures
            power2::pow2(self.lgblock as nat) <= power2::pow2(self.ring_bits() as nat),
            power2::pow2(self.lgblock as nat) <= self.most_bytes(),
            self.most_bytes() <= 0x100_0000,
            power2::pow2(self.ring_bits() as nat) <= 0x8000_0000,
    {
        power2::lemma_pow2_strictly_increases(self.lgblock as nat, self.ring_bits() as nat);
        power2::lemma2_to64();
        if self.ring_bits() < 24 {
            power2::lemma_pow2_strictly_increases(self.ring_bits() as nat, 24);
        }
        if self.ring_bits() < 31 {
            power2::lemma_pow2_strictly_increases(self.ring_bits() as nat, 31);
        }
        if self.lgblock < 24 {
            power2::lemma_pow2_strictly_increases(self.lgblock as nat, 24);
        }
    }

    /// Returns the ring buffer's window size in bits.
    pub fn rb_bits(&self) -> (bits: usize)
        requires
            self.wf(),
        ensures
            bits == self.ring_bits(),
    {
        1 + if self.lgwin > self.lgblock {
            self.lgwin
        } else {
            self.lgblock
        }
    }

    /// The largest meta-block this encoder emits.
    pub open spec fn most_bytes(&self) -> int {
        power2::pow2(
            if self.ring_bits() < MAX_INPUT_BLOCK_BITS {
                self.ring_bits() as nat
            } else {
                MAX_INPUT_BLOCK_BITS as nat
            },
        ) as int
    }

    /// Returns the largest meta-block this encoder emits.
    pub fn max_metablock_size(&self) -> (size: usize)
        requires
            self.wf(),
        ensures
            size == self.most_bytes(),
    {
        let ring: usize = self.rb_bits();
        let bits: usize = if ring < MAX_INPUT_BLOCK_BITS {
            ring
        } else {
            MAX_INPUT_BLOCK_BITS
        };
        proof {
            math::lemma_one_shl(bits);
        }
        1usize << bits
    }

    /// Returns the largest backward distance.
    pub fn max_backward_limit(&self) -> (limit: usize)
        requires
            self.wf(),
        ensures
            limit == power2::pow2(self.lgwin as nat) - WINDOW_GAP,
            limit <= 0x3FFF_FFF0,
    {
        proof {
            math::lemma_one_shl(self.lgwin);
            power2::lemma2_to64();
            power2::lemma_pow2_strictly_increases(4, self.lgwin as nat);
            if self.lgwin < 30 {
                power2::lemma_pow2_strictly_increases(self.lgwin as nat, 30);
            }
        }
        (1usize << self.lgwin) - WINDOW_GAP
    }

    /// How much the search tries at each position.
    pub open spec fn effort_of(&self) -> Effort {
        match self.quality {
            HqQuality::Q10 => Effort { max_zopfli_len: 150, max_zopfli_candidates: 1 },
            HqQuality::Q11 => Effort { max_zopfli_len: 325, max_zopfli_candidates: 5 },
        }
    }

    /// Returns how much the search tries at each position.
    pub fn effort(&self) -> (effort: Effort)
        ensures
            effort == self.effort_of(),
    {
        match self.quality {
            HqQuality::Q10 => Effort { max_zopfli_len: 150, max_zopfli_candidates: 1 },
            HqQuality::Q11 => Effort { max_zopfli_len: 325, max_zopfli_candidates: 5 },
        }
    }

    /// How often the splitter searches for blocks.
    pub open spec fn iterations_of(&self) -> usize {
        match self.quality {
            HqQuality::Q10 => 3,
            HqQuality::Q11 => 10,
        }
    }

    /// Returns how often the splitter searches for blocks.
    pub fn split_iterations(&self) -> (iterations: usize)
        ensures
            iterations == self.iterations_of(),
    {
        match self.quality {
            HqQuality::Q10 => 3,
            HqQuality::Q11 => 10,
        }
    }

    /// Returns how far back the nearest positions are tried one by one.
    pub fn short_scan(&self) -> (positions: usize)
        ensures
            positions == match self.quality {
                HqQuality::Q10 => 16,
                HqQuality::Q11 => 64int,
            },
    {
        match self.quality {
            HqQuality::Q10 => 16,
            HqQuality::Q11 => 64,
        }
    }
}

} // verus!
