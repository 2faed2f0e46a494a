//! What a stream is encoded with: quality, window, block size, mode and
//! distance alphabet.
use vstd::arithmetic::power2;
use vstd::prelude::*;

use crate::math;

verus! {

/// What kind of content the encoder should expect.
#[derive(Copy, Clone, Debug, Default, PartialEq, Eq, Hash, Structural)]
pub enum CompressMode {
    /// Nothing is known about the content.
    #[default]
    Generic,
    /// UTF-8 text.
    Text,
    /// WOFF font data.
    Font,
}

/// Base-two logarithm of the input block size, 16 to 24.
#[derive(Copy, Clone, Debug, PartialEq, Eq, PartialOrd, Ord, Hash, Structural)]
pub struct BlockBits(usize);

impl BlockBits {
    #[verifier::type_invariant]
    closed spec fn in_range(self) -> bool {
        16 <= self.0 <= 24
    }

    /// The smallest block.
    pub fn min() -> (bits: BlockBits)
        ensures
            bits.value() == 16,
    {
        BlockBits(16)
    }

    /// The largest block.
    pub fn max() -> (bits: BlockBits)
        ensures
            bits.value() == 24,
    {
        BlockBits(24)
    }

    /// The number itself.
    pub closed spec fn value(self) -> usize {
        self.0
    }
}

/// Why a number is not a block size.
#[derive(Copy, Clone, Debug, PartialEq, Eq, Structural)]
#[non_exhaustive]
pub enum ParseBlockBitsError {
    /// Below 16.
    LowerBound,
    /// Above 24.
    UpperBound,
}

impl TryFrom<usize> for BlockBits {
    type Error = ParseBlockBitsError;

    fn try_from(value: usize) -> (result: Result<Self, ParseBlockBitsError>)
        ensures
            value < 16 ==> result == Err::<BlockBits, _>(ParseBlockBitsError::LowerBound),
            value > 24 ==> result == Err::<BlockBits, _>(ParseBlockBitsError::UpperBound),
            16 <= value <= 24 ==> result is Ok && result->Ok_0.value() == value,
    {
        if value < 16 {
            return Err(ParseBlockBitsError::LowerBound);
        }
        if value > 24 {
            return Err(ParseBlockBitsError::UpperBound);
        }
        Ok(BlockBits(value))
    }
}

impl vstd::std_specs::convert::TryFromSpecImpl<usize> for BlockBits {
    closed spec fn obeys_try_from_spec() -> bool {
        true
    }

    closed spec fn try_from_spec(value: usize) -> Result<Self, ParseBlockBitsError> {
        if value < 16 {
            Err(ParseBlockBitsError::LowerBound)
        } else if value > 24 {
            Err(ParseBlockBitsError::UpperBound)
        } else {
            Ok(BlockBits(value))
        }
    }
}

impl From<BlockBits> for usize {
    fn from(value: BlockBits) -> (bits: usize)
        ensures
            bits == value.value(),
            16 <= bits <= 24,
    {
        proof {
            use_type_invariant(value);
        }
        value.0
    }
}

impl vstd::std_specs::convert::FromSpecImpl<BlockBits> for usize {
    open spec fn obeys_from_spec() -> bool {
        true
    }

    open spec fn from_spec(value: BlockBits) -> usize {
        value.value()
    }
}

/// How distances are split between direct codes and postfix groups.
#[derive(Copy, Clone, Debug, PartialEq, Eq, Hash, Structural)]
pub struct DistanceCodes {
    postfix_bits: u32,
    direct_codes: u32,
}

/// Whether the format can express a pair of distance parameters: at most three
/// postfix bits, and a whole number of at most fifteen groups of direct codes.
pub open spec fn distance_codes_valid(postfix_bits: u32, direct_codes: u32) -> bool {
    &&& postfix_bits <= 3
    &&& direct_codes <= 120
    &&& direct_codes as nat % power2::pow2(postfix_bits as nat) == 0
    &&& direct_codes as nat / power2::pow2(postfix_bits as nat) <= 15
}

impl DistanceCodes {
    /// The number of postfix bits.
    pub closed spec fn postfix(self) -> u32 {
        self.postfix_bits
    }

    /// The number of direct codes.
    pub closed spec fn direct(self) -> u32 {
        self.direct_codes
    }

    /// Returns how many low bits every distance code shares.
    pub fn postfix_bits(&self) -> (n: u32)
        ensures
            n == self.postfix(),
    {
        self.postfix_bits
    }

    /// Returns how many distances have a code of their own.
    pub fn direct_codes(&self) -> (n: u32)
        ensures
            n == self.direct(),
    {
        self.direct_codes
    }

    /// Builds a pair without checking that the format can express it.
    pub fn from_raw(postfix_bits: u32, direct_codes: u32) -> (codes: Self)
        ensures
            codes.postfix() == postfix_bits,
            codes.direct() == direct_codes,
    {
        DistanceCodes { postfix_bits, direct_codes }
    }
}

impl Default for DistanceCodes {
    /// No postfix bits and no direct codes.
    fn default() -> (codes: Self)
        ensures
            codes.postfix() == 0,
            codes.direct() == 0,
    {
        DistanceCodes { postfix_bits: 0, direct_codes: 0 }
    }
}

/// Why a pair of numbers is not a pair of distance parameters.
#[derive(Copy, Clone, Debug, PartialEq, Eq, Structural)]
#[non_exhaustive]
pub enum ParseDistanceCodesError {
    /// More than three postfix bits.
    PostfixBits,
    /// More than 120 direct codes.
    DirectCodes,
    /// Not a whole number of postfix groups.
    Misaligned,
}

impl TryFrom<(u32, u32)> for DistanceCodes {
    type Error = ParseDistanceCodesError;

    fn try_from(pair: (u32, u32)) -> (result: Result<Self, ParseDistanceCodesError>)
        ensures
            pair.0 > 3 ==> result == Err::<DistanceCodes, _>(ParseDistanceCodesError::PostfixBits),
            pair.0 <= 3 && pair.1 > 120 ==> result == Err::<DistanceCodes, _>(
                ParseDistanceCodesError::DirectCodes,
            ),
            pair.0 <= 3 && pair.1 <= 120 && !distance_codes_valid(pair.0, pair.1) ==> result == Err::<
                DistanceCodes,
                _,
            >(ParseDistanceCodesError::Misaligned),
            distance_codes_valid(pair.0, pair.1) ==> result is Ok && result->Ok_0.postfix() == pair.0
                && result->Ok_0.direct() == pair.1,
    {
        let (postfix_bits, direct_codes) = pair;
        if postfix_bits > 3 {
            return Err(ParseDistanceCodesError::PostfixBits);
        }
        if direct_codes > 120 {
            return Err(ParseDistanceCodesError::DirectCodes);
        }
        let groups: u32 = (direct_codes >> postfix_bits) & 0x0F;
        proof {
            math::lemma_whole_groups(direct_codes, postfix_bits);
        }
        if (groups << postfix_bits) != direct_codes {
            return Err(ParseDistanceCodesError::Misaligned);
        }
        Ok(DistanceCodes { postfix_bits, direct_codes })
    }
}

impl vstd::std_specs::convert::TryFromSpecImpl<(u32, u32)> for DistanceCodes {
    closed spec fn obeys_try_from_spec() -> bool {
        true
    }

    closed spec fn try_from_spec(pair: (u32, u32)) -> Result<Self, ParseDistanceCodesError> {
        if pair.0 > 3 {
            Err(ParseDistanceCodesError::PostfixBits)
        } else if pair.1 > 120 {
            Err(ParseDistanceCodesError::DirectCodes)
        } else if !distance_codes_valid(pair.0, pair.1) {
            Err(ParseDistanceCodesError::Misaligned)
        } else {
            Ok(DistanceCodes { postfix_bits: pair.0, direct_codes: pair.1 })
        }
    }
}

/// Which header a window is announced with.
#[derive(Copy, Clone, Debug, PartialEq, Eq, Hash, Structural)]
enum WindowKind {
    Standard(u8),
    Large(u8),
}

/// Base-two logarithm of the sliding window: 10 to 24, or up to 62 with the
/// large-window extension.
#[derive(Copy, Clone, Debug, PartialEq, Eq, Hash, Structural)]
pub struct WindowBits(WindowKind);

impl WindowBits {
    #[verifier::type_invariant]
    closed spec fn in_range(self) -> bool {
        match self.0 {
            WindowKind::Standard(bits) => 10 <= bits <= 24,
            WindowKind::Large(bits) => 10 <= bits <= 62,
        }
    }

    /// The number itself.
    pub closed spec fn value(self) -> u8 {
        match self.0 {
            WindowKind::Standard(bits) => bits,
            WindowKind::Large(bits) => bits,
        }
    }

    /// Whether the large-window header is asked for.
    pub closed spec fn large_header(self) -> bool {
        self.0 is Large
    }

    /// Chooses a window of the base format.
    pub fn standard(bits: u8) -> (result: Result<Self, ParseWindowBitsError>)
        ensures
            bits < 10 ==> result == Err::<WindowBits, _>(ParseWindowBitsError::LowerBound),
            bits > 24 ==> result == Err::<WindowBits, _>(ParseWindowBitsError::UpperBound),
            10 <= bits <= 24 ==> result is Ok && result->Ok_0.value() == bits
                && !result->Ok_0.large_header(),
    {
        if bits < 10 {
            return Err(ParseWindowBitsError::LowerBound);
        }
        if bits > 24 {
            return Err(ParseWindowBitsError::UpperBound);
        }
        Ok(WindowBits(WindowKind::Standard(bits)))
    }

    /// Chooses a window of the large-window extension.
    pub fn large(bits: u8) -> (result: Result<Self, ParseWindowBitsError>)
        ensures
            bits < 10 ==> result == Err::<WindowBits, _>(ParseWindowBitsError::LowerBound),
            bits > 62 ==> result == Err::<WindowBits, _>(ParseWindowBitsError::LargeUpperBound),
            10 <= bits <= 62 ==> result is Ok && result->Ok_0.value() == bits
                && result->Ok_0.large_header(),
    {
        if bits < 10 {
            return Err(ParseWindowBitsError::LowerBound);
        }
        if bits > 62 {
            return Err(ParseWindowBitsError::LargeUpperBound);
        }
        Ok(WindowBits(WindowKind::Large(bits)))
    }

    /// Returns the number itself, which is always in its header's range.
    pub fn bits(self) -> (bits: u8)
        ensures
            bits == self.value(),
            10 <= bits <= 62,
            !self.large_header() ==> bits <= 24,
    {
        proof {
            use_type_invariant(self);
        }
        match self.0 {
            WindowKind::Standard(bits) => bits,
            WindowKind::Large(bits) => bits,
        }
    }

    /// Returns whether the large-window header is asked for.
    pub fn is_large(self) -> (large: bool)
        ensures
            large == self.large_header(),
    {
        match self.0 {
            WindowKind::Standard(_) => false,
            WindowKind::Large(_) => true,
        }
    }
}

impl Default for WindowBits {
    /// The base format's 22-bit window.
    fn default() -> (bits: Self)
        ensures
            bits.value() == 22,
            !bits.large_header(),
    {
        WindowBits(WindowKind::Standard(22))
    }
}

impl From<WindowBits> for usize {
    fn from(value: WindowBits) -> (bits: usize)
        ensures
            bits == value.value(),
            10 <= bits <= 62,
            !value.large_header() ==> bits <= 24,
    {
        value.bits() as usize
    }
}

impl vstd::std_specs::convert::FromSpecImpl<WindowBits> for usize {
    open spec fn obeys_from_spec() -> bool {
        true
    }

    open spec fn from_spec(value: WindowBits) -> usize {
        value.value() as usize
    }
}

/// Why a number is not a window size.
#[derive(Copy, Clone, Debug, PartialEq, Eq, Structural)]
#[non_exhaustive]
pub enum ParseWindowBitsError {
    /// Below 10.
    LowerBound,
    /// Above 24.
    UpperBound,
    /// Above 62, for a large window.
    LargeUpperBound,
}

/// How hard the encoder works.
#[derive(Copy, Clone, Debug, PartialEq, Eq, PartialOrd, Ord, Hash, Structural)]
pub enum QualityLevel {
    /// One pass over fixed-size fragments.
    Q0,
    /// Two passes over fixed-size fragments.
    Q1,
    /// Greedy search without block splitting.
    Q2,
    /// Greedy search without block splitting, with a larger table.
    Q3,
    /// Greedy search with block splitting.
    Q4,
    /// Greedy search with literal context modelling.
    Q5,
    /// As [`QualityLevel::Q5`], searching more.
    Q6,
    /// As [`QualityLevel::Q6`], searching more.
    Q7,
    /// As [`QualityLevel::Q7`], searching more.
    Q8,
    /// As [`QualityLevel::Q8`], searching more.
    Q9,
    /// A dynamic program over every command.
    Q10,
    /// The dynamic program run twice.
    Q11,
}

impl QualityLevel {
    /// The quality as a number.
    pub open spec fn number(self) -> usize {
        match self {
            QualityLevel::Q0 => 0,
            QualityLevel::Q1 => 1,
            QualityLevel::Q2 => 2,
            QualityLevel::Q3 => 3,
            QualityLevel::Q4 => 4,
            QualityLevel::Q5 => 5,
            QualityLevel::Q6 => 6,
            QualityLevel::Q7 => 7,
            QualityLevel::Q8 => 8,
            QualityLevel::Q9 => 9,
            QualityLevel::Q10 => 10,
            QualityLevel::Q11 => 11,
        }
    }

    /// The quality a number names.
    pub open spec fn of_number(value: usize) -> Result<QualityLevel, ParseQualityLevelError> {
        if value == 0 {
            Ok(QualityLevel::Q0)
        } else if value == 1 {
            Ok(QualityLevel::Q1)
        } else if value == 2 {
            Ok(QualityLevel::Q2)
        } else if value == 3 {
            Ok(QualityLevel::Q3)
        } else if value == 4 {
            Ok(QualityLevel::Q4)
        } else if value == 5 {
            Ok(QualityLevel::Q5)
        } else if value == 6 {
            Ok(QualityLevel::Q6)
        } else if value == 7 {
            Ok(QualityLevel::Q7)
        } else if value == 8 {
            Ok(QualityLevel::Q8)
        } else if value == 9 {
            Ok(QualityLevel::Q9)
        } else if value == 10 {
            Ok(QualityLevel::Q10)
        } else if value == 11 {
            Ok(QualityLevel::Q11)
        } else {
            Err(ParseQualityLevelError::UpperBound)
        }
    }
}

impl From<QualityLevel> for usize {
    fn from(value: QualityLevel) -> (number: usize)
        ensures
            number == value.number(),
            number <= 11,
    {
        match value {
            QualityLevel::Q0 => 0,
            QualityLevel::Q1 => 1,
            QualityLevel::Q2 => 2,
            QualityLevel::Q3 => 3,
            QualityLevel::Q4 => 4,
            QualityLevel::Q5 => 5,
            QualityLevel::Q6 => 6,
            QualityLevel::Q7 => 7,
            QualityLevel::Q8 => 8,
            QualityLevel::Q9 => 9,
            QualityLevel::Q10 => 10,
            QualityLevel::Q11 => 11,
        }
    }
}

impl vstd::std_specs::convert::FromSpecImpl<QualityLevel> for usize {
    open spec fn obeys_from_spec() -> bool {
        true
    }

    open spec fn from_spec(value: QualityLevel) -> usize {
        value.number()
    }
}

/// Why a number is not a quality.
#[derive(Copy, Clone, Debug, PartialEq, Eq, Structural)]
#[non_exhaustive]
pub enum ParseQualityLevelError {
    /// Below zero.
    LowerBound,
    /// Above eleven.
    UpperBound,
}

impl TryFrom<usize> for QualityLevel {
    type Error = ParseQualityLevelError;

    fn try_from(value: usize) -> (result: Result<Self, ParseQualityLevelError>)
        ensures
            result == QualityLevel::of_number(value),
            result is Ok <==> value <= 11,
            result is Ok ==> result->Ok_0.number() == value,
    {
        match value {
            0 => Ok(QualityLevel::Q0),
            1 => Ok(QualityLevel::Q1),
            2 => Ok(QualityLevel::Q2),
            3 => Ok(QualityLevel::Q3),
            4 => Ok(QualityLevel::Q4),
            5 => Ok(QualityLevel::Q5),
            6 => Ok(QualityLevel::Q6),
            7 => Ok(QualityLevel::Q7),
            8 => Ok(QualityLevel::Q8),
            9 => Ok(QualityLevel::Q9),
            10 => Ok(QualityLevel::Q10),
            11 => Ok(QualityLevel::Q11),
            _ => Err(ParseQualityLevelError::UpperBound),
        }
    }
}

impl vstd::std_specs::convert::TryFromSpecImpl<usize> for QualityLevel {
    open spec fn obeys_try_from_spec() -> bool {
        true
    }

    open spec fn try_from_spec(value: usize) -> Result<Self, ParseQualityLevelError> {
        QualityLevel::of_number(value)
    }
}

/// A number read as a quality reads back as the same number.
pub proof fn lemma_quality_round_trip(quality: QualityLevel)
    ensures
        QualityLevel::of_number(quality.number()) == Ok::<QualityLevel, ParseQualityLevelError>(
            quality,
        ),
{
}

/// Everything one stream is encoded with.
#[derive(Copy, Clone, Debug, PartialEq, Eq, Hash, Structural)]
pub struct CompressParams {
    quality: QualityLevel,
    lgwin: WindowBits,
    lgblock: Option<BlockBits>,
    mode: CompressMode,
    size_hint: Option<usize>,
    distance_codes: DistanceCodes,
    literal_context_modeling: bool,
}

/// The settings a [`CompressParams`] carries.
#[verifier::ext_equal]
pub struct Settings {
    /// How hard to work.
    pub quality: QualityLevel,
    /// The window.
    pub lgwin: WindowBits,
    /// The block size asked for, if any.
    pub lgblock: Option<BlockBits>,
    /// The kind of content.
    pub mode: CompressMode,
    /// How much input is coming, if known.
    pub size_hint: Option<usize>,
    /// The distance alphabet asked for.
    pub distance_codes: DistanceCodes,
    /// Whether literals may be modelled by context.
    pub literal_context_modeling: bool,
}

impl View for CompressParams {
    type V = Settings;

    closed spec fn view(&self) -> Settings {
        Settings {
            quality: self.quality,
            lgwin: self.lgwin,
            lgblock: self.lgblock,
            mode: self.mode,
            size_hint: self.size_hint,
            distance_codes: self.distance_codes,
            literal_context_modeling: self.literal_context_modeling,
        }
    }
}

impl CompressParams {
    /// Starts from a quality and a window, everything else at its default.
    pub fn new(quality: QualityLevel, lgwin: WindowBits) -> (params: Self)
        ensures
            params@.quality == quality,
            params@.lgwin == lgwin,
            params@.lgblock is None,
            params@.mode == CompressMode::Generic,
            params@.size_hint is None,
            params@.distance_codes.postfix() == 0,
            params@.distance_codes.direct() == 0,
            params@.literal_context_modeling,
    {
        CompressParams {
            quality,
            lgwin,
            lgblock: None,
            mode: CompressMode::Generic,
            size_hint: None,
            distance_codes: DistanceCodes::default(),
            literal_context_modeling: true,
        }
    }

    /// Returns the quality.
    pub fn quality(&self) -> (quality: QualityLevel)
        ensures
            quality == self@.quality,
    {
        self.quality
    }

    /// Returns the window.
    pub fn lgwin(&self) -> (lgwin: WindowBits)
        ensures
            lgwin == self@.lgwin,
    {
        self.lgwin
    }

    /// Sets or clears the block size.
    #[must_use]
    pub fn with_block_bits(self, lgblock: Option<BlockBits>) -> (params: Self)
        ensures
            params@ == (Settings { lgblock, ..self@ }),
    {
        CompressParams { lgblock, ..self }
    }

    /// Returns the block size asked for.
    pub fn lgblock(&self) -> (lgblock: Option<BlockBits>)
        ensures
            lgblock == self@.lgblock,
    {
        self.lgblock
    }

    /// Sets the kind of content.
    #[must_use]
    pub fn with_mode(self, mode: CompressMode) -> (params: Self)
        ensures
            params@ == (Settings { mode, ..self@ }),
    {
        CompressParams { mode, ..self }
    }

    /// Returns the kind of content.
    pub fn mode(&self) -> (mode: CompressMode)
        ensures
            mode == self@.mode,
    {
        self.mode
    }

    /// Sets or clears how much input is coming.
    #[must_use]
    pub fn with_size_hint(self, size_hint: Option<usize>) -> (params: Self)
        ensures
            params@ == (Settings { size_hint, ..self@ }),
    {
        CompressParams { size_hint, ..self }
    }

    /// Returns how much input is coming, if known.
    pub fn size_hint(&self) -> (size_hint: Option<usize>)
        ensures
            size_hint == self@.size_hint,
    {
        self.size_hint
    }

    /// Sets the distance alphabet.
    #[must_use]
    pub fn with_distance_codes(self, distance_codes: DistanceCodes) -> (params: Self)
        ensures
            params@ == (Settings { distance_codes, ..self@ }),
    {
        CompressParams { distance_codes, ..self }
    }

    /// Returns the distance alphabet asked for.
    pub fn distance_codes(&self) -> (distance_codes: DistanceCodes)
        ensures
            distance_codes == self@.distance_codes,
    {
        self.distance_codes
    }

    /// Allows or forbids modelling literals by context.
    #[must_use]
    pub fn with_literal_context_modeling(self, enabled: bool) -> (params: Self)
        ensures
            params@ == (Settings { literal_context_modeling: enabled, ..self@ }),
    {
        CompressParams { literal_context_modeling: enabled, ..self }
    }

    /// Returns whether literals may be modelled by context.
    pub fn literal_context_modeling(&self) -> (enabled: bool)
        ensures
            enabled == self@.literal_context_modeling,
    {
        self.literal_context_modeling
    }
}

/// Why a shared-dictionary or large-window stream cannot be encoded.
#[derive(Copy, Clone, Debug, PartialEq, Eq, Structural)]
#[non_exhaustive]
pub enum SharedBrotliError {
    /// The quality has no large-window encoder.
    UnsupportedLargeWindow {
        /// The quality asked for.
        quality: usize,
    },
}

/// Why a stream could not be encoded.
#[derive(Copy, Clone, Debug, PartialEq, Eq, Structural)]
#[non_exhaustive]
pub enum BrotliCompressError {
    /// No encoder implements this quality.
    UnsupportedQuality(usize),
    /// The caller's buffer cannot hold the stream.
    OutputTooSmall,
    /// The encoder's own buffer proved too small.
    BufferOverflow,
    /// The size bound does not fit the address space.
    BoundOverflow,
    /// The shared or large-window settings are refused.
    Shared(SharedBrotliError),
}

/// What an encoding step returns.
pub type BrotliResult<T> = Result<T, BrotliCompressError>;

} // verus!
