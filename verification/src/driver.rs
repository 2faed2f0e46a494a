//! Quality routing and the one-shot compression entry points.
//!
//! What the encoder families share belongs here: which of them a quality goes to,
//! the shortcut for empty input, and the fallback to a stream of verbatim
//! meta-blocks when compressing did not pay.
use vstd::arithmetic::power2;
use vstd::prelude::*;

use crate::backend::Backend;
use crate::calls;
use crate::calls::CallLog;
use crate::config;
use crate::config::{
    BrotliCompressError, BrotliResult, CompressParams, QualityLevel, SharedBrotliError,
};
use crate::shared::reader;

verus! {

/// The encoder family a quality routes to.
#[derive(Copy, Clone, Debug, PartialEq, Eq, Structural)]
pub enum Family {
    /// One fragment at a time.
    Fast,
    /// Greedy references over a sliding window.
    Greedy,
    /// The cheapest path through each block.
    Hq,
}

impl Family {
    /// The family of a quality.
    pub open spec fn of(quality: QualityLevel) -> Self {
        match quality {
            QualityLevel::Q0 | QualityLevel::Q1 => Family::Fast,
            QualityLevel::Q10 | QualityLevel::Q11 => Family::Hq,
            _ => Family::Greedy,
        }
    }

    /// Returns the family of a quality.
    pub fn route(quality: QualityLevel) -> (family: Self)
        ensures
            family == Self::of(quality),
    {
        match quality {
            QualityLevel::Q0 | QualityLevel::Q1 => Family::Fast,
            QualityLevel::Q10 | QualityLevel::Q11 => Family::Hq,
            _ => Family::Greedy,
        }
    }
}

/// The size hint an encoder goes by: an explicit one wins.
pub open spec fn effective_hint(settings: config::Settings, known: usize) -> usize {
    match settings.size_hint {
        Some(hint) => hint,
        None => known,
    }
}

/// Returns the size hint an encoder goes by.
pub fn resolve_size_hint(params: &CompressParams, known: usize) -> (hint: usize)
    ensures
        hint == effective_hint(params@, known),
{
    match params.size_hint() {
        Some(hint) => hint,
        None => known,
    }
}

/// What the entry points need of an encoder.
///
/// An encoder is handed its input in order, a block at a time, and what it returns is
/// passed on. The last block of a stream is never nothing; beyond that, a kind of
/// encoder says nothing but how it can answer, and what it is afterwards.
pub trait BlockEncoder: Sized {
    /// An encoder of this kind can be built so, or refused with an error.
    open spec fn starts(start: calls::Start, built: BrotliResult<Self>) -> bool {
        arbitrary()
    }

    /// An encoder of this kind can say that it serves another stream, or that it does
    /// not fit, and become another one.
    open spec fn serves(
        before: Self,
        settings: config::Settings,
        hint: usize,
        fits: bool,
        after: Self,
    ) -> bool {
        arbitrary()
    }

    /// An encoder of this kind can take this much at once.
    open spec fn takes(encoder: Self, limit: usize) -> bool {
        arbitrary()
    }

    /// An encoder of this kind can answer a call so, and become another one.
    open spec fn does(
        before: Self,
        call: calls::Call,
        answer: BrotliResult<Seq<u8>>,
        after: Self,
    ) -> bool {
        arbitrary()
    }

    /// Builds an encoder of a family.
    fn build(family: Family, backend: Backend, params: &CompressParams, size_hint: usize) -> (result:
        BrotliResult<Self>)
        ensures
            Self::starts(
                (calls::Start {
                    family,
                    backend,
                    settings: params@,
                    hint: size_hint,
                    reused: false,
                }),
                result,
            ),
    ;

    /// Restores the encoder for another stream, or says that it does not fit.
    fn reset_for(&mut self, params: &CompressParams, size_hint: usize) -> (fits: bool)
        ensures
            Self::serves(*old(self), params@, size_hint, fits, *final(self)),
    ;

    /// The largest input one block may have.
    fn block_size_limit(&self) -> (limit: usize)
        ensures
            Self::takes(*self, limit),
    ;

    /// Compresses one block.
    fn encode_block(&mut self, input: &[u8], is_last: bool) -> (result: BrotliResult<Vec<u8>>)
        ensures
            Self::does(
                *old(self),
                calls::Call::Block { bytes: input@, is_last },
                calls::said(result),
                *final(self),
            ),
            is_last && result is Ok ==> result->Ok_0@.len() > 0,
    ;
}

/// An encoder got to a stream so: it was built for it, or restored.
pub open spec fn begun<E: BlockEncoder>(start: calls::Start, first: E) -> bool {
    if start.reused {
        exists|before: E| #[trigger]
            calls::restored(before, start.settings, start.hint, first)
    } else {
        E::starts(start, Ok(first))
    }
}

/// A retained encoder, reused when the next call resolves to the same shape.
pub struct EncoderCache<E> {
    /// The retained encoder.
    pub encoder: Option<E>,
    /// The backend it was built for.
    pub backend: Option<Backend>,
    /// What the last stream asked of its encoder.
    pub log: CallLog,
}

impl<E: BlockEncoder> EncoderCache<E> {
    /// An encoder is retained exactly if its backend is known.
    pub open spec fn wf(&self) -> bool {
        self.encoder is Some <==> self.backend is Some
    }

    /// Creates an empty cache.
    pub fn new() -> (cache: Self)
        ensures
            cache.wf(),
            cache.encoder is None,
    {
        EncoderCache { encoder: None, backend: None, log: CallLog::new() }
    }

    /// Drops the retained encoder, so a failed call cannot leak state.
    pub fn invalidate(&mut self)
        ensures
            final(self).wf(),
            final(self).encoder is None,
            final(self).log == old(self).log,
    {
        self.encoder = None;
        self.backend = None;
    }

    /// The retained encoder is not used: there is none for this backend, or it was
    /// asked and declined.
    pub open spec fn passed_over(
        &self,
        settings: config::Settings,
        backend: Backend,
        known: usize,
        after: &Self,
    ) -> bool {
        &&& after.log.declined@ == if self.backend == Some(backend) {
            Some(started(settings, backend, known, true))
        } else {
            None
        }
        &&& self.backend == Some(backend) ==> exists|left: E| #[trigger]
            calls::turned_down(
                self.encoder->0,
                settings,
                effective_hint(settings, known),
                left,
            )
    }

    /// Takes an encoder for `params` out of the cache: the retained one if it was
    /// built for this backend and fits, otherwise a new one.
    pub fn acquire(&mut self, backend: Backend, params: &CompressParams, size_hint: usize) -> (result:
        BrotliResult<E>)
        requires
            old(self).wf(),
        ensures
            final(self).wf(),
            final(self).encoder is None,
            final(self).log.wf(),
            final(self).log.calls@.len() == 0,
            final(self).log.declined_by::<E>(),
            final(self).log.limit@ is None,
            final(self).log.refusing@ is None,
            match result {
                Ok(encoder) => {
                    &&& final(self).log.refused@ is None
                    &&& final(self).log.start@ matches Some(start) && begun(start, encoder) && start
                        == started(params@, backend, size_hint, start.reused) && (start.reused
                        ==> old(self).backend == Some(backend) && final(self).log.declined@ is None
                        && calls::restored(old(self).encoder->0, params@, start.hint, encoder))
                        && (!start.reused ==> old(self).passed_over(
                        params@,
                        backend,
                        size_hint,
                        final(self),
                    ))
                },
                Err(error) => final(self).log.refused@ == Some(error) && final(self).log.start@ is None
                    && E::starts(started(params@, backend, size_hint, false), Err(error)) && old(self).passed_over(params@, backend, size_hint, final(self)),
            },
    {
        self.log = CallLog::new();
        let held = self.encoder.take();
        let built_for = self.backend.take();
        let hint: usize = resolve_size_hint(params, size_hint);
        if let Some(mut encoder) = held {
            if let Some(kind) = built_for {
                if kind == backend {
                    let ghost before = encoder;
                    if self.log.ask_to_serve(&mut encoder, backend, params, hint) {
                        proof {
                            let start = self.log.start@->0;
                            assert(calls::restored(before, start.settings, start.hint, encoder));
                        }
                        return Ok(encoder);
                    }
                    proof {
                        let start = self.log.declined@->0;
                        assert(calls::turned_down(before, start.settings, start.hint, encoder));
                    }
                }
            }
        }
        self.log.ask_for_encoder(backend, params, hint)
    }

    /// Keeps an encoder for the next call.
    pub fn retain(&mut self, encoder: E, backend: Backend)
        ensures
            final(self).wf(),
            final(self).encoder == Some(encoder),
            final(self).backend == Some(backend),
            final(self).log == old(self).log,
    {
        self.encoder = Some(encoder);
        self.backend = Some(backend);
    }
}

/// How a stream with these settings gets its encoder.
pub open spec fn started(
    settings: config::Settings,
    backend: Backend,
    known: usize,
    reused: bool,
) -> calls::Start {
    calls::Start {
        family: Family::of(settings.quality),
        backend,
        settings,
        hint: effective_hint(settings, known),
        reused,
    }
}

/// A large window is asked for at a quality that cannot carry one.
pub open spec fn refuses_large_window(settings: config::Settings) -> bool {
    &&& settings.lgwin.large_header()
    &&& settings.quality.number() <= 2
}

/// Rejects a large window at a quality that cannot carry one.
///
/// The lowest qualities write distances through an entropy model built for the
/// base alphabet.
pub fn check_large_window(params: &CompressParams) -> (result: BrotliResult<()>)
    ensures
        result == if refuses_large_window(params@) {
            Err::<(), _>(
                BrotliCompressError::Shared(
                    SharedBrotliError::UnsupportedLargeWindow { quality: params@.quality.number() },
                ),
            )
        } else {
            Ok(())
        },
{
    if !params.lgwin().is_large() {
        return Ok(());
    }
    let quality: usize = usize::from(params.quality());
    if quality <= 2 {
        Err(BrotliCompressError::Shared(SharedBrotliError::UnsupportedLargeWindow { quality }))
    } else {
        Ok(())
    }
}

/// Returns whether a quality has a match finder that consults a prefix.
///
/// Below five there is nowhere to put a prefix match.
pub fn quality_reads_a_prefix(quality: QualityLevel) -> (reads: bool)
    ensures
        reads == (quality.number() >= 5),
{
    usize::from(quality) >= 5
}

/// The most a one-shot stream may have.
pub open spec fn most_compressed(input_size: int) -> int {
    if input_size == 0 {
        2
    } else {
        input_size + 6 + 4 * (input_size / 16384)
    }
}

/// Returns the most a one-shot stream may have, unless that does not fit.
pub fn max_compressed_size(input_size: usize) -> (size: Option<usize>)
    ensures
        match size {
            Some(size) => size == most_compressed(input_size as int),
            None => most_compressed(input_size as int) > usize::MAX,
        },
{
    if input_size == 0 {
        return Some(2);
    }
    let overhead: usize = 2 + 4 * (input_size / 16384) + 3 + 1;
    input_size.checked_add(overhead)
}

/// Most bytes a verbatim meta-block may have.
pub const MAX_CHUNK: usize = 0x100_0000;

/// How many nibbles beyond four announce a chunk's length.
pub open spec fn extra_nibbles(len: int) -> int {
    if len > 0x10_0000 {
        2
    } else if len > 0x1_0000 {
        1
    } else {
        0
    }
}

/// The header of a verbatim meta-block as a number: not the last, the nibbles, the
/// length less one, and the mark that the bytes follow.
pub open spec fn chunk_word(len: int) -> int {
    let nibbles = extra_nibbles(len);
    2 * nibbles + 8 * (len - 1) + if nibbles == 0 {
        0x8_0000
    } else if nibbles == 1 {
        0x80_0000
    } else {
        0x800_0000int
    }
}

/// How many bytes a chunk's header has.
pub open spec fn header_bytes(len: int) -> int {
    if extra_nibbles(len) == 2 {
        4
    } else {
        3
    }
}

/// A number as little-endian bytes.
pub open spec fn le_bytes(word: int, count: int) -> Seq<u8> {
    Seq::new(
        count as nat,
        |i: int|
            (word / if i == 0 {
                1int
            } else if i == 1 {
                256
            } else if i == 2 {
                0x1_0000
            } else {
                0x100_0000
            } % 256) as u8,
    )
}

/// A stretch as verbatim meta-blocks.
pub open spec fn chunks(src: Seq<u8>) -> Seq<u8>
    decreases src.len(),
{
    if src.len() == 0 {
        Seq::empty()
    } else {
        let len = if src.len() < MAX_CHUNK {
            src.len() as int
        } else {
            MAX_CHUNK as int
        };
        le_bytes(chunk_word(len), header_bytes(len)) + src.take(len) + chunks(src.skip(len))
    }
}

/// A stream that holds its input verbatim: the smallest window, an empty metadata
/// block for alignment, the chunks, and the end.
pub open spec fn verbatim_stream(src: Seq<u8>) -> Seq<u8> {
    if src.len() == 0 {
        seq![6u8]
    } else {
        seq![0x21u8, 0x03] + chunks(src) + seq![3u8]
    }
}

/// Appends the little-endian bytes of a word.
fn push_le(out: &mut Vec<u8>, word: u32, count: usize)
    requires
        count == 3 || count == 4,
    ensures
        final(out)@ == old(out)@ + le_bytes(word as int, count as int),
{
    let ghost before = out@;
    out.push((word % 256) as u8);
    out.push((word / 256 % 256) as u8);
    out.push((word / 0x1_0000 % 256) as u8);
    if count == 4 {
        out.push((word / 0x100_0000 % 256) as u8);
    }
    assert(out@ =~= before + le_bytes(word as int, count as int));
}

/// Wraps `src` in a stream of verbatim meta-blocks with a minimal window.
pub fn make_uncompressed_stream(src: &[u8], out: &mut Vec<u8>)
    ensures
        final(out)@ == old(out)@ + verbatim_stream(src@),
{
    let ghost before = out@;
    if src.len() == 0 {
        out.push(6);
        assert(out@ =~= before + verbatim_stream(src@));
        return;
    }
    out.push(0x21);
    out.push(0x03);
    let mut offset: usize = 0;
    assert(src@.skip(0) =~= src@);
    assert(out@ + chunks(src@) =~= before + (seq![0x21u8, 0x03] + chunks(src@)));
    while offset < src.len()
        invariant
            offset <= src@.len(),
            out@ + chunks(src@.skip(offset as int)) == before + (seq![0x21u8, 0x03] + chunks(
                src@,
            )),
        decreases src@.len() - offset,
    {
        let rest: usize = src.len() - offset;
        let chunk: usize = if rest < MAX_CHUNK {
            rest
        } else {
            MAX_CHUNK
        };
        let nibbles: u32 = if chunk > 0x10_0000 {
            2
        } else if chunk > 0x1_0000 {
            1
        } else {
            0
        };
        let mark: u32 = if nibbles == 0 {
            0x8_0000
        } else if nibbles == 1 {
            0x80_0000
        } else {
            0x800_0000
        };
        let word: u32 = 2 * nibbles + 8 * (chunk - 1) as u32 + mark;
        let ghost held = out@;
        let ghost left = src@.skip(offset as int);
        let block = &src[offset..offset + chunk];
        push_le(
            out,
            word,
            if nibbles == 2 {
                4
            } else {
                3
            },
        );
        out.extend_from_slice(block);
        proof {
            assert(block@ =~= left.take(chunk as int));
            assert(left.skip(chunk as int) =~= src@.skip(offset + chunk));
            assert(word == chunk_word(chunk as int));
            let header = le_bytes(word as int, header_bytes(chunk as int));
            assert(out@ =~= held + header + left.take(chunk as int));
            assert(held + (header + left.take(chunk as int) + chunks(left.skip(chunk as int)))
                =~= out@ + chunks(left.skip(chunk as int)));
        }
        offset += chunk;
    }
    assert(chunks(src@.skip(offset as int)) =~= Seq::empty());
    assert(out@ + chunks(src@.skip(offset as int)) =~= out@);
    out.push(3);
    assert(out@ =~= before + verbatim_stream(src@));
}

/// The number some little-endian bytes stand for.
pub open spec fn le_value(bytes: Seq<u8>, at: int, count: int) -> int {
    bytes[at] + 256 * bytes[at + 1] + 0x1_0000 * bytes[at + 2] + if count == 4 {
        0x100_0000 * bytes[at + 3]
    } else {
        0
    }
}

/// Reads verbatim meta-blocks up to the end of a stream: what the format says such
/// a stream decodes to. A meta-block without the mark behind its length is none.
pub open spec fn unwrapped(stream: Seq<u8>, at: int) -> Seq<u8>
    decreases stream.len() - at,
{
    if at < 0 || at + 3 >= stream.len() || stream[at] % 2 == 1 {
        Seq::empty()
    } else {
        let nibbles = (stream[at] / 2) as int % 4;
        let header = if nibbles == 2 {
            4int
        } else {
            3
        };
        let word = le_value(stream, at, header);
        let len = word / 8 % announced(nibbles) + 1;
        let verbatim = word / (8 * announced(nibbles)) % 2 == 1;
        let from = at + header;
        if nibbles == 3 || !verbatim || from + len > stream.len() {
            Seq::empty()
        } else {
            stream.subrange(from, from + len) + unwrapped(stream, from + len)
        }
    }
}

/// A stream of verbatim meta-blocks reads back to its input.
pub proof fn lemma_verbatim_reads_back(src: Seq<u8>)
    requires
        src.len() > 0,
    ensures
        unwrapped(verbatim_stream(src), 2) == src,
{
    let stream = verbatim_stream(src);
    assert(stream =~= seq![0x21u8, 0x03] + chunks(src) + seq![3u8]);
    lemma_chunks_read_back(seq![0x21u8, 0x03], src);
}

/// A stream of verbatim meta-blocks decodes to its input, for every input: a reader
/// that goes by the format finds a window, each chunk marked as verbatim, and the end.
pub proof fn lemma_verbatim_decodes(src: Seq<u8>)
    ensures
        reader::content_of(verbatim_stream(src)) == Some(
            (
                if src.len() == 0 {
                    16int
                } else {
                    10
                },
                src,
            ),
        ),
{
    reveal(reader::content_from);
    let stream = verbatim_stream(src);
    power2::lemma2_to64();
    if src.len() == 0 {
        reader::lemma_number_byte(stream, 0);
        reader::lemma_number_parts(stream, 0, 1, 7);
        reader::lemma_number_parts(stream, 1, 1, 6);
        reader::lemma_number_parts(stream, 2, 1, 5);
        assert(reader::boundary(3) == 8);
        assert(reader::content_from(stream, 1) == Some(src));
    } else {
        reader::lemma_window_value(stream, 0x321);
        reader::lemma_number_byte(stream, 0);
        reader::lemma_number_byte(stream, 1);
        reader::lemma_number_split(stream, 0, 8, 8);
        reader::lemma_number_parts(stream, 0, 7, 9);
        reader::lemma_number_parts(stream, 7, 1, 8);
        reader::lemma_number_parts(stream, 8, 2, 6);
        reader::lemma_number_parts(stream, 10, 1, 5);
        reader::lemma_number_parts(stream, 11, 2, 3);
        assert(0x321int / 128 == 6 && 6int % 2 == 0);
        assert(3int % 4 == 3 && 3int / 4 == 0 && 0int % 2 == 0 && 0int / 2 == 0);
        assert(0int % 4 == 0 && 0int / 4 == 0);
        assert(reader::number_at(stream, 7, 1) == 0);
        assert(reader::number_at(stream, 8, 2) == 3);
        assert(reader::number_at(stream, 10, 6) == 0);
        assert(reader::number_at(stream, 10, 1) == 0);
        assert(reader::number_at(stream, 11, 5) == 0);
        assert(reader::number_at(stream, 11, 2) == 0);
        assert(reader::number_at(stream, 13, 3) == 0);
        assert(reader::boundary(13) == 16);
        assert(reader::header_at(stream, 7) == reader::Header::Metadata(0, 6));
        assert(stream =~= seq![0x21u8, 0x03] + chunks(src) + seq![3u8]);
        lemma_chunks_decode(seq![0x21u8, 0x03], src);
        assert(reader::content_from(stream, 7) == Some(src));
    }
}

/// The header of a chunk, read by the rules of the format.
proof fn lemma_chunk_header(stream: Seq<u8>, at: int, len: int)
    requires
        1 <= len <= MAX_CHUNK,
        0 <= at,
        at + header_bytes(len) <= stream.len(),
        stream.subrange(at, at + header_bytes(len)) == le_bytes(chunk_word(len), header_bytes(len)),
    ensures
        reader::header_at(stream, 8 * at) == reader::Header::Verbatim(
            len,
            20 + 4 * extra_nibbles(len),
        ),
        reader::padded(stream, 8 * at + 20 + 4 * extra_nibbles(len)),
        reader::boundary(8 * at + 20 + 4 * extra_nibbles(len)) == 8 * (at + header_bytes(len)),
{
    let nibbles = extra_nibbles(len);
    let word = chunk_word(len);
    let position = 8 * at;
    lemma_chunk_word(len);
    lemma_header_value(stream, at, len);
    power2::lemma2_to64();
    reader::lemma_number_byte(stream, at);
    reader::lemma_number_byte(stream, at + 1);
    reader::lemma_number_byte(stream, at + 2);
    reader::lemma_number_split(stream, position, 8, 8);
    reader::lemma_number_split(stream, position, 16, 8);
    let wide = 8 * header_bytes(len);
    if nibbles == 2 {
        reader::lemma_number_byte(stream, at + 3);
        reader::lemma_number_split(stream, position, 24, 8);
    }
    assert(reader::number_at(stream, position, wide) == word);
    reader::lemma_number_parts(stream, position, 1, wide - 1);
    reader::lemma_number_parts(stream, position + 1, 2, wide - 3);
    reader::lemma_number_parts(stream, position + 3, 16 + 4 * nibbles, wide - 19 - 4 * nibbles);
    reader::lemma_number_parts(stream, position + 19 + 4 * nibbles, 1, wide - 20 - 4 * nibbles);
    reader::lemma_number_parts(stream, position + 3, 12 + 4 * nibbles, 4);
    assert(word / 2 % 4 == nibbles && word / 2 / 4 == word / 8);
    assert(word / 8 == len - 1 + announced(nibbles));
    if nibbles == 0 {
        assert((len - 1 + 0x1_0000) / 0x1_0000 == 1);
    } else if nibbles == 1 {
        assert((len - 1 + 0x10_0000) / 0x10_0000 == 1);
        assert((len - 1) / 0x1_0000 > 0);
    } else {
        assert((len - 1 + 0x100_0000) / 0x100_0000 == 1);
        assert((len - 1) / 0x10_0000 > 0);
    }
}

/// Chunks after some bytes decode to what they hold.
proof fn lemma_chunks_decode(before: Seq<u8>, src: Seq<u8>)
    ensures
        reader::content_from(before + chunks(src) + seq![3u8], 8 * before.len() as int) == Some(
            src,
        ),
    decreases src.len(),
{
    let stream = before + chunks(src) + seq![3u8];
    let at = before.len() as int;
    if src.len() == 0 {
        assert(chunks(src) =~= Seq::empty());
        reader::lemma_three_ends(stream);
        assert(src =~= Seq::empty());
    } else {
        let len = if src.len() < MAX_CHUNK {
            src.len() as int
        } else {
            MAX_CHUNK as int
        };
        let count = header_bytes(len);
        let header = le_bytes(chunk_word(len), count);
        let rest = src.skip(len);
        let longer = before + header + src.take(len);
        assert(stream =~= longer + chunks(rest) + seq![3u8]);
        lemma_chunks_decode(longer, rest);
        assert(stream.subrange(at, at + count) =~= header);
        lemma_chunk_header(stream, at, len);
        reader::lemma_verbatim_step(stream, 8 * at, len, 20 + 4 * extra_nibbles(len));
        assert(stream.subrange(at + count, at + count + len) =~= src.take(len));
        assert(src =~= src.take(len) + rest);
    }
}

/// How many lengths a number of nibbles can announce.
pub open spec fn announced(nibbles: int) -> int {
    if nibbles == 0 {
        0x1_0000
    } else if nibbles == 1 {
        0x10_0000
    } else {
        0x100_0000
    }
}

/// A header gives its nibbles and its length back.
proof fn lemma_chunk_word(len: int)
    requires
        1 <= len <= MAX_CHUNK,
    ensures
        ({
            let word = chunk_word(len);
            &&& 0 <= word < 0x1000_0000
            &&& header_bytes(len) == 3 ==> word < 0x100_0000
            &&& word % 2 == 0
            &&& word % 256 / 2 % 4 == extra_nibbles(len)
            &&& word / 8 % announced(extra_nibbles(len)) + 1 == len
            &&& word / (8 * announced(extra_nibbles(len))) == 1
            &&& word == word % 256 + 256 * (word / 256 % 256) + 0x1_0000 * (word / 0x1_0000 % 256)
                + 0x100_0000 * (word / 0x100_0000 % 256)
        }),
{
    let word = chunk_word(len);
    let nibbles = extra_nibbles(len);
    lemma_recompose(word);
    assert(word / 8 == len - 1 + announced(nibbles) && word % 8 == 2 * nibbles);
    assert(word % 256 % 8 == word % 8);
    lemma_low_three(word % 256, nibbles);
    if nibbles == 0 {
        assert((len - 1 + 0x1_0000) % 0x1_0000 == len - 1);
        assert(word / 0x8_0000 == 1);
    } else if nibbles == 1 {
        assert((len - 1 + 0x10_0000) % 0x10_0000 == len - 1);
        assert(word / 0x80_0000 == 1);
    } else {
        assert((len - 1 + 0x100_0000) % 0x100_0000 == len - 1);
        assert(word / 0x800_0000 == 1);
    }
}

/// A word is its bytes.
proof fn lemma_recompose(word: int)
    requires
        0 <= word < 0x1_0000_0000,
    ensures
        word == word % 256 + 256 * (word / 256 % 256) + 0x1_0000 * (word / 0x1_0000 % 256)
            + 0x100_0000 * (word / 0x100_0000 % 256),
{
    assert(word / 0x1_0000 == word / 256 / 256);
    assert(word / 0x100_0000 == word / 0x1_0000 / 256);
}

/// The second and third bit of a byte.
proof fn lemma_low_three(byte: int, nibbles: int)
    requires
        0 <= byte,
        0 <= nibbles < 4,
        byte % 8 == 2 * nibbles,
    ensures
        byte / 2 % 4 == nibbles,
        byte % 2 == 0,
{
    assert(byte == 8 * (byte / 8) + 2 * nibbles);
    assert(byte / 2 == 4 * (byte / 8) + nibbles);
}

/// The bytes of a header stand for its word.
proof fn lemma_header_value(stream: Seq<u8>, at: int, len: int)
    requires
        1 <= len <= MAX_CHUNK,
        0 <= at,
        at + header_bytes(len) <= stream.len(),
        stream.subrange(at, at + header_bytes(len)) == le_bytes(chunk_word(len), header_bytes(len)),
    ensures
        le_value(stream, at, header_bytes(len)) == chunk_word(len),
        stream[at] == chunk_word(len) % 256,
{
    lemma_chunk_word(len);
    let header = le_bytes(chunk_word(len), header_bytes(len));
    let cut = stream.subrange(at, at + header_bytes(len));
    assert(cut[0] == stream[at] && cut[1] == stream[at + 1] && cut[2] == stream[at + 2]);
    if header_bytes(len) == 4 {
        assert(cut[3] == stream[at + 3]);
    }
    assert(header[0] == chunk_word(len) % 256);
}

/// One chunk is read, then the rest.
proof fn lemma_chunk_read(stream: Seq<u8>, at: int, len: int)
    requires
        1 <= len <= MAX_CHUNK,
        0 <= at,
        at + header_bytes(len) + len < stream.len(),
        stream.subrange(at, at + header_bytes(len)) == le_bytes(chunk_word(len), header_bytes(len)),
    ensures
        unwrapped(stream, at) == stream.subrange(
            at + header_bytes(len),
            at + header_bytes(len) + len,
        ) + unwrapped(stream, at + header_bytes(len) + len),
{
    lemma_chunk_word(len);
    lemma_header_value(stream, at, len);
    assert(stream[at] as int % 2 == 0);
    assert((stream[at] / 2) as int % 4 == extra_nibbles(len));
}

/// Chunks after some bytes read back.
proof fn lemma_chunks_read_back(before: Seq<u8>, src: Seq<u8>)
    ensures
        unwrapped(before + chunks(src) + seq![3u8], before.len() as int) == src,
    decreases src.len(),
{
    let stream = before + chunks(src) + seq![3u8];
    let at = before.len() as int;
    if src.len() == 0 {
        assert(chunks(src) =~= Seq::empty());
        assert(unwrapped(stream, at) =~= src);
    } else {
        let len = if src.len() < MAX_CHUNK {
            src.len() as int
        } else {
            MAX_CHUNK as int
        };
        let count = header_bytes(len);
        let header = le_bytes(chunk_word(len), count);
        let rest = src.skip(len);
        let longer = before + header + src.take(len);
        assert(stream =~= longer + chunks(rest) + seq![3u8]);
        lemma_chunks_read_back(longer, rest);
        assert(stream.subrange(at, at + count) =~= header);
        lemma_chunk_read(stream, at, len);
        assert(stream.subrange(at + count, at + count + len) =~= src.take(len));
        assert(src =~= src.take(len) + rest);
    }
}

/// A stream of verbatim meta-blocks is never longer than a one-shot stream may
/// be.
pub proof fn lemma_verbatim_fits(src: Seq<u8>)
    ensures
        verbatim_stream(src).len() <= most_compressed(src.len() as int),
{
    if src.len() > 0 {
        lemma_chunks_len(src);
    }
}

/// How long chunks are.
proof fn lemma_chunks_len(src: Seq<u8>)
    ensures
        chunks(src).len() <= src.len() + 3 + 4 * (src.len() / 0x100_0000) + if src.len() > 0x10_0000 {
            1int
        } else {
            0
        },
        src.len() == 0 ==> chunks(src).len() == 0,
    decreases src.len(),
{
    if src.len() > 0 {
        let len = if src.len() < MAX_CHUNK {
            src.len() as int
        } else {
            MAX_CHUNK as int
        };
        lemma_chunks_len(src.skip(len));
    }
}

/// The next block of an input: how long it is, and whether it is the last.
pub open spec fn block_at(total: int, offset: int, limit: int) -> (int, bool) {
    let len = if total - offset < limit {
        total - offset
    } else {
        limit
    };
    (len, offset + len == total)
}

/// Returns the next block of an input.
pub fn next_block(total: usize, offset: usize, limit: usize) -> (block: (usize, bool))
    requires
        offset <= total,
    ensures
        (block.0 as int, block.1) == block_at(total as int, offset as int, limit as int),
        offset + block.0 <= total,
{
    let rest: usize = total - offset;
    let len: usize = if rest < limit {
        rest
    } else {
        limit
    };
    (len, len == rest)
}

/// How much is handed to an encoder at once: what it says it takes, but at least one
/// byte.
pub open spec fn at_once(said: usize) -> int {
    if said == 0 {
        1
    } else {
        said as int
    }
}

/// A stream asked for every block of an input, each as long as the encoder says it
/// takes, the last one marked, and for nothing else.
pub open spec fn asked_for(log: &CallLog, src: Seq<u8>) -> bool {
    &&& log.wf()
    &&& log.limit@ matches Some(said) && log.calls@ == calls::schedule(src, at_once(said))
}

/// A block after some full ones ends the schedule, or is one more full one.
proof fn lemma_block_asked(src: Seq<u8>, limit: int, count: nat, len: int)
    requires
        limit >= 1,
        limit * count < src.len() || count == 0,
        len == block_at(src.len() as int, limit * count, limit).0,
    ensures
        limit * count + len == src.len() ==> calls::full_blocks(src, limit, count).push(
            calls::Call::Block {
                bytes: src.subrange(limit * count, limit * count + len),
                is_last: true,
            },
        ) == calls::schedule(src, limit),
        limit * count + len != src.len() ==> limit * count + len == limit * (count + 1)
            && calls::full_blocks(src, limit, count).push(
            calls::Call::Block {
                bytes: src.subrange(limit * count, limit * count + len),
                is_last: false,
            },
        ) == calls::full_blocks(src, limit, count + 1),
{
    assert(limit * (count + 1) == limit * count + limit) by (nonlinear_arith);
    assert(limit * 0 == 0);
    if limit * count + len == src.len() {
        calls::lemma_full_then_last(src, limit, count);
        assert(src.subrange(limit * count, limit * count + len) =~= src.skip(limit * count));
    } else {
        assert(calls::full_blocks(src, limit, count).push(
            calls::Call::Block {
                bytes: src.subrange(limit * count, limit * count + len),
                is_last: false,
            },
        ) =~= calls::full_blocks(src, limit, count + 1));
    }
}

/// Asks an encoder how much it takes at once, and returns that, at least one byte.
fn block_limit<E: BlockEncoder>(encoder: &E, log: &mut CallLog) -> (limit: usize)
    ensures
        final(log).limit@ matches Some(said) && limit == at_once(said) && old(log).limited_to(
            said,
            final(log),
        ) && E::takes(*encoder, said),
{
    let limit: usize = log.ask_limit(encoder);
    if limit == 0 {
        1
    } else {
        limit
    }
}

/// Drives a whole input through an encoder, appending to `out`.
///
/// Returns the number of bytes appended. What was there stays.
fn drive_appending<E: BlockEncoder>(
    encoder: &mut E,
    limit: usize,
    log: &mut CallLog,
    src: &[u8],
    out: &mut Vec<u8>,
) -> (result: BrotliResult<usize>)
    requires
        limit >= 1,
        old(log).wf(),
        old(log).calls@.len() == 0,
        old(log).refused@ is None,
        old(log).refusing@ is None,
    ensures
        final(log).wf(),
        old(log).same_encoder(final(log)),
        match final(log).refused@ {
            None => final(log).ran_by(calls::of_blocks::<E>(), *old(encoder), *final(encoder)),
            Some(_) => exists|between: E| #[trigger]
                final(log).ran_by(calls::of_blocks::<E>(), *old(encoder), between)
                    && final(log).refused_by(calls::of_blocks::<E>(), between),
        },
        final(log).refused@ is None ==> final(log).refusing@ is None,
        final(out)@ == old(out)@ + final(log).made(),
        match result {
            Ok(written) => {
                &&& final(log).refused@ is None
                &&& 0 < written == final(log).made().len()
                &&& final(log).calls@ == calls::schedule(src@, limit as int)
            },
            Err(error) => final(log).refused@ == Some(error) && (
            final(log).refusing@ matches Some(call) && final(log).calls@.push(call).is_prefix_of(
                calls::schedule(src@, limit as int),
            )),
        },
{
    let ghost before = out@;
    let start: usize = out.len();
    let mut offset: usize = 0;
    proof {
        assert(before + log.made() =~= before);
        assert(limit * 0 == 0);
        assert(log.calls@ =~= calls::full_blocks(src@, limit as int, 0));
    }
    loop
        invariant
            offset <= src@.len(),
            1 <= limit,
            before == old(out)@,
            start == before.len(),
            log.wf(),
            log.refused@ is None,
            log.refusing@ is None,
            old(log).same_encoder(log),
            log.ran_by(calls::of_blocks::<E>(), *old(encoder), *encoder),
            out@ == before + log.made(),
            log.calls@ == calls::full_blocks(src@, limit as int, log.calls@.len()),
            offset == limit * log.calls@.len(),
            offset < src@.len() || log.calls@.len() == 0,
        decreases src@.len() - offset,
    {
        let (len, is_last) = next_block(src.len(), offset, limit);
        proof {
            lemma_block_asked(src@, limit as int, log.calls@.len(), len as int);
        }
        let ghost sent = log.made();
        let ghost count = log.calls@.len();
        let ghost held_log = *log;
        let ghost held_encoder = *encoder;
        match log.ask_block(encoder, &src[offset..offset + len], is_last) {
            Err(error) => {
                proof {
                    assert(log.ran_by(calls::of_blocks::<E>(), *old(encoder), held_encoder));
                    assert(calls::steps_to(
                        calls::of_blocks::<E>(),
                        held_encoder,
                        log.refusing@->0,
                        Err(log.refused@->0),
                        *encoder,
                    ));
                    assert(log.refused_by(calls::of_blocks::<E>(), held_encoder));
                    let whole = calls::schedule(src@, limit as int);
                    let call = log.refusing@->0;
                    if is_last {
                        assert(whole.take(whole.len() as int) =~= whole);
                    } else {
                        calls::lemma_full_begins(src@, limit as int, count + 1);
                    }
                }
                return Err(error);
            },
            Ok(bytes) => {
                proof {
                    calls::lemma_ran_on(
                        calls::of_blocks::<E>(),
                        *old(encoder),
                        held_log.calls@,
                        held_log.answers@,
                        held_encoder,
                        calls::Call::Block {
                            bytes: src@.subrange(offset as int, offset + len),
                            is_last,
                        },
                        bytes@,
                        *encoder,
                    );
                }
                out.extend_from_slice(bytes.as_slice());
                assert(out@ =~= before + (sent + bytes@));
            },
        }
        offset += len;
        if is_last {
            return Ok(out.len() - start);
        }
    }
}

/// A stream took an encoder from one to another: it got to the stream, said how much it
/// takes, and answered the calls in order, up to the one it refused, if it did.
pub open spec fn ran_through<E: BlockEncoder>(log: &CallLog, first: E, last: E) -> bool {
    &&& log.start@ matches Some(start) && begun(start, first)
    &&& log.limit@ matches Some(said) && E::takes(first, said)
    &&& log.ran_by(calls::of_blocks::<E>(), first, last)
    &&& log.refused@ is Some ==> log.refused_by(calls::of_blocks::<E>(), last)
}

/// Some encoder went through a stream.
pub open spec fn went_through<E: BlockEncoder>(log: &CallLog) -> bool {
    exists|first: E, last: E| #[trigger] ran_through(log, first, last)
}

/// A log holds what a kind of encoder can have said over a stream, and where it was
/// refused, either what was asked or the encoder.
pub open spec fn said_by<E: BlockEncoder>(log: &CallLog, start: calls::Start) -> bool {
    &&& log.wf()
    &&& log.declined_by::<E>()
    &&& log.start@ matches Some(found) ==> found == (calls::Start { reused: found.reused, ..start })
        && went_through::<E>(log)
    &&& log.start@ is None ==> log.calls@.len() == 0 && (log.refused@ matches Some(error)
        && E::starts(start, Err(error)))
    &&& log.refused@ is Some ==> (log.refusing@ is None <==> log.start@ is None)
}

/// The cache holds the encoder that went through a stream, for the backend it used.
pub open spec fn retains<E: BlockEncoder>(cache: &EncoderCache<E>, backend: Backend) -> bool {
    &&& cache.encoder matches Some(last)
    &&& cache.backend == Some(backend)
    &&& exists|first: E| #[trigger] ran_through(&cache.log, first, last)
}

/// What became of a stream: what the encoder answered, or its refusal.
pub open spec fn stream_settled<E: BlockEncoder>(
    log: &CallLog,
    start: calls::Start,
    src: Seq<u8>,
    result: BrotliResult<Seq<u8>>,
) -> bool {
    &&& said_by::<E>(log, start)
    &&& match result {
        Ok(made) => {
            &&& log.refused@ is None
            &&& log.start@ is Some
            &&& asked_for(log, src)
            &&& 0 < log.made().len() <= usize::MAX
            &&& made == one_shot(src, log.made())
        },
        Err(error) => {
            &&& log.refused@ == Some(error)
            &&& match log.refusing@ {
                Some(call) => log.limit@ matches Some(said) && log.calls@.push(call).is_prefix_of(
                    calls::schedule(src, at_once(said)),
                ),
                None => log.calls@.len() == 0,
            }
        },
    }
}

/// Compresses `src` into `out`, reusing `cache`.
///
/// An empty input is one byte. A stream longer than compressing may make it is
/// replaced by one that holds the input verbatim. After an error `out` is as it
/// was, and nothing is retained.
pub fn compress_to_vec<E: BlockEncoder>(
    cache: &mut EncoderCache<E>,
    backend: Backend,
    params: &CompressParams,
    src: &[u8],
    out: &mut Vec<u8>,
) -> (result: BrotliResult<()>)
    requires
        old(cache).wf(),
    ensures
        final(cache).wf(),
        refuses_large_window(params@) ==> result == Err::<(), _>(
            BrotliCompressError::Shared(
                SharedBrotliError::UnsupportedLargeWindow { quality: params@.quality.number() },
            ),
        ),
        result is Err ==> final(out)@ == old(out)@,
        result is Ok ==> 0 < final(out)@.len() - old(out)@.len() <= most_compressed(
            src@.len() as int,
        ),
        result is Err && !refuses_large_window(params@) ==> final(cache).encoder is None,
        // The encoder of a stream is kept for the next one; where none was asked for, the
        // cache stays as it is.
        result is Ok && src@.len() > 0 ==> retains(final(cache), backend),
        refuses_large_window(params@) || src@.len() == 0 ==> *final(cache) == *old(cache),
        !refuses_large_window(params@) && src@.len() == 0 ==> result is Ok && final(out)@
            == old(out)@.push(6),
        !refuses_large_window(params@) && src@.len() > 0 ==> {
            &&& stream_settled::<E>(
                &final(cache).log,
                started(params@, backend, src@.len() as usize, false),
                src@,
                match result {
                    Ok(_) => Ok(final(out)@.skip(old(out)@.len() as int)),
                    Err(error) => Err(error),
                },
            )
            &&& final(out)@.take(old(out)@.len() as int) == old(out)@
            &&& old(out)@.len() <= final(out)@.len()
        },
{
    match check_large_window(params) {
        Err(error) => return Err(error),
        Ok(_) => {},
    }
    let ghost before = out@;
    if src.len() == 0 {
        out.push(6);
        return Ok(());
    }
    let start: usize = out.len();
    let mut encoder = match cache.acquire(backend, params, src.len()) {
        Ok(encoder) => encoder,
        Err(error) => {
            assert(out@.take(before.len() as int) =~= before);
            return Err(error);
        },
    };
    let limit: usize = block_limit(&encoder, &mut cache.log);
    let ghost first = encoder;
    match drive_appending(&mut encoder, limit, &mut cache.log, src, out) {
        Err(error) => {
            proof {
                let last = choose|last: E| #[trigger]
                    cache.log.ran_by(calls::of_blocks::<E>(), first, last)
                        && cache.log.refused_by(calls::of_blocks::<E>(), last);
                assert(ran_through(&cache.log, first, last));
            }
            out.truncate(start);
            assert(out@ =~= before);
            assert(out@.take(before.len() as int) =~= before);
            Err(error)
        },
        Ok(written) => {
            let too_long: bool = match max_compressed_size(src.len()) {
                Some(most) => written > most,
                None => false,
            };
            if too_long {
                out.truncate(start);
                assert(out@ =~= before);
                make_uncompressed_stream(src, out);
            }
            proof {
                assert(ran_through(&cache.log, first, encoder));
                assert(cache.log.calls@ == calls::schedule(src@, limit as int));
                assert(out@ == before + one_shot(src@, cache.log.made()));
                lemma_one_shot_bounded(src@, cache.log.made());
                assert(out@.skip(before.len() as int) =~= one_shot(src@, cache.log.made()));
                assert(out@.take(before.len() as int) =~= before);
            }
            cache.retain(encoder, backend);
            assert(ran_through(&cache.log, first, cache.encoder->0));
            Ok(())
        },
    }
}

/// What a one-shot stream is: what the encoder made of it, unless that is too
/// long.
pub open spec fn one_shot(src: Seq<u8>, made: Seq<u8>) -> Seq<u8> {
    if made.len() > most_compressed(src.len() as int) {
        verbatim_stream(src)
    } else {
        made
    }
}

/// A one-shot stream never exceeds what compressing may make of its input.
pub proof fn lemma_one_shot_bounded(src: Seq<u8>, made: Seq<u8>)
    ensures
        one_shot(src, made).len() <= most_compressed(src.len() as int),
{
    lemma_verbatim_fits(src);
}

/// Copies `bytes` to the front of `dst` from `at` on.
fn place(dst: &mut [u8], at: usize, bytes: &[u8])
    requires
        at + bytes@.len() <= old(dst)@.len(),
    ensures
        final(dst)@.len() == old(dst)@.len(),
        forall|i: int|
            0 <= i < old(dst)@.len() ==> #[trigger] final(dst)@[i] == if at <= i < at + bytes@.len() {
                bytes@[i - at]
            } else {
                old(dst)@[i]
            },
{
    let ghost before = dst@;
    let size: usize = dst.len();
    let mut k: usize = 0;
    while k < bytes.len()
        invariant
            k <= bytes@.len(),
            at + bytes@.len() <= before.len(),
            dst@.len() == before.len(),
            before.len() == size,
            forall|i: int|
                0 <= i < before.len() ==> #[trigger] dst@[i] == if at <= i < at + k {
                    bytes@[i - at]
                } else {
                    before[i]
                },
        decreases bytes@.len() - k,
    {
        dst[at + k] = bytes[k];
        k += 1;
    }
}

/// Drives a whole input through an encoder, writing into `dst`.
fn drive_into<E: BlockEncoder>(
    encoder: &mut E,
    limit: usize,
    log: &mut CallLog,
    src: &[u8],
    dst: &mut [u8],
) -> (result: BrotliResult<usize>)
    requires
        limit >= 1,
        old(log).wf(),
        old(log).calls@.len() == 0,
        old(log).refused@ is None,
        old(log).refusing@ is None,
    ensures
        final(log).wf(),
        old(log).same_encoder(final(log)),
        match final(log).refused@ {
            None => final(log).ran_by(calls::of_blocks::<E>(), *old(encoder), *final(encoder)),
            Some(_) => exists|between: E| #[trigger]
                final(log).ran_by(calls::of_blocks::<E>(), *old(encoder), between)
                    && final(log).refused_by(calls::of_blocks::<E>(), between),
        },
        final(log).refused@ is None ==> final(log).refusing@ is None,
        final(dst)@.len() == old(dst)@.len(),
        final(log).calls@.is_prefix_of(calls::schedule(src@, limit as int)),
        match result {
            Ok(written) => {
                &&& final(log).refused@ is None
                &&& 0 < written <= final(dst)@.len()
                &&& final(dst)@.take(written as int) == final(log).made()
                &&& final(log).calls@ == calls::schedule(src@, limit as int)
            },
            Err(error) => if final(log).refused@ is None {
                error == BrotliCompressError::OutputTooSmall && final(log).made().len() > final(dst)@.len()
            } else {
                final(log).refused@ == Some(error) && (final(log).refusing@ matches Some(call)
                    && final(log).calls@.push(call).is_prefix_of(
                    calls::schedule(src@, limit as int),
                ))
            },
        },
{
    let mut offset: usize = 0;
    let mut written: usize = 0;
    proof {
        assert(dst@.take(0) =~= log.made());
        assert(limit * 0 == 0);
        assert(log.calls@ =~= calls::full_blocks(src@, limit as int, 0));
    }
    loop
        invariant
            offset <= src@.len(),
            1 <= limit,
            dst@.len() == old(dst)@.len(),
            written <= dst@.len(),
            log.wf(),
            log.refused@ is None,
            log.refusing@ is None,
            old(log).same_encoder(log),
            log.ran_by(calls::of_blocks::<E>(), *old(encoder), *encoder),
            dst@.take(written as int) == log.made(),
            log.calls@ == calls::full_blocks(src@, limit as int, log.calls@.len()),
            offset == limit * log.calls@.len(),
            offset < src@.len() || log.calls@.len() == 0,
        decreases src@.len() - offset,
    {
        let (len, is_last) = next_block(src.len(), offset, limit);
        proof {
            lemma_block_asked(src@, limit as int, log.calls@.len(), len as int);
            calls::lemma_full_begins(src@, limit as int, log.calls@.len());
            let whole = calls::schedule(src@, limit as int);
            assert(whole.take(whole.len() as int) =~= whole);
            if offset + len != src@.len() {
                calls::lemma_full_begins(src@, limit as int, log.calls@.len() + 1);
            }
        }
        let ghost held_log = *log;
        let ghost held_encoder = *encoder;
        match log.ask_block(encoder, &src[offset..offset + len], is_last) {
            Err(error) => {
                proof {
                    assert(log.ran_by(calls::of_blocks::<E>(), *old(encoder), held_encoder));
                    assert(calls::steps_to(
                        calls::of_blocks::<E>(),
                        held_encoder,
                        log.refusing@->0,
                        Err(log.refused@->0),
                        *encoder,
                    ));
                    assert(log.refused_by(calls::of_blocks::<E>(), held_encoder));
                }
                return Err(error);
            },
            Ok(bytes) => {
                proof {
                    calls::lemma_ran_on(
                        calls::of_blocks::<E>(),
                        *old(encoder),
                        held_log.calls@,
                        held_log.answers@,
                        held_encoder,
                        calls::Call::Block {
                            bytes: src@.subrange(offset as int, offset + len),
                            is_last,
                        },
                        bytes@,
                        *encoder,
                    );
                }
                if bytes.len() > dst.len() - written {
                    return Err(BrotliCompressError::OutputTooSmall);
                }
                let ghost held = dst@;
                place(dst, written, bytes.as_slice());
                assert(dst@.take(written + bytes@.len()) =~= held.take(written as int) + bytes@);
                written += bytes.len();
            },
        }
        offset += len;
        if is_last {
            return Ok(written);
        }
    }
}

/// Decides what a caller's buffer holds in the end.
///
/// `written` is what the encoder put there, or `None` where it did not fit: the
/// verbatim stream may still, and replaces a stream that is too long as well.
pub fn settle_slice(src: &[u8], written: Option<usize>, dst: &mut [u8]) -> (result: BrotliResult<usize>)
    requires
        written matches Some(n) ==> n <= old(dst)@.len(),
    ensures
        final(dst)@.len() == old(dst)@.len(),
        ({
            let most = most_compressed(src@.len() as int);
            let replaced = most <= usize::MAX && (written is None || written->0 > most);
            let whole = verbatim_stream(src@);
            if replaced && whole.len() > old(dst)@.len() {
                result == Err::<usize, _>(BrotliCompressError::OutputTooSmall)
            } else if replaced {
                &&& result matches Ok(n) && n == whole.len() && final(dst)@.take(n as int) == whole
            } else if written is None {
                result == Err::<usize, _>(BrotliCompressError::OutputTooSmall)
            } else {
                result == Ok::<usize, BrotliCompressError>(written->0) && final(dst)@ == old(dst)@
            }
        }),
{
    let most: Option<usize> = max_compressed_size(src.len());
    let replaced: bool = match (most, written) {
        (None, _) => false,
        (Some(_), None) => true,
        (Some(most), Some(n)) => n > most,
    };
    if replaced {
        let mut fallback: Vec<u8> = Vec::new();
        make_uncompressed_stream(src, &mut fallback);
        assert(fallback@ =~= verbatim_stream(src@));
        if fallback.len() > dst.len() {
            return Err(BrotliCompressError::OutputTooSmall);
        }
        place(dst, 0, fallback.as_slice());
        assert(dst@.take(fallback@.len() as int) =~= fallback@);
        return Ok(fallback.len());
    }
    match written {
        None => Err(BrotliCompressError::OutputTooSmall),
        Some(n) => Ok(n),
    }
}

/// What a caller's buffer holds once a stream was written to it.
///
/// Where the encoder's stream fits, it is there, unless it is too long. Where it
/// does not, the verbatim stream is, if that fits. A refusal is passed on.
pub open spec fn slice_settled<E: BlockEncoder>(
    log: &CallLog,
    start: calls::Start,
    src: Seq<u8>,
    dst: Seq<u8>,
    result: BrotliResult<usize>,
) -> bool {
    let refused = log.refused@ is Some;
    let short = log.refused@ == Some(BrotliCompressError::OutputTooSmall) && log.start@ is Some;
    &&& said_by::<E>(log, start)
    &&& log.start@ is Some ==> (log.limit@ matches Some(said) && log.calls@.is_prefix_of(
        calls::schedule(src, at_once(said)),
    ) && (log.refusing@ matches Some(call) ==> log.calls@.push(call).is_prefix_of(
        calls::schedule(src, at_once(said)),
    )))
    &&& if refused && !short {
        result == Err::<usize, _>(log.refused@->0)
    } else if !refused && log.made().len() <= dst.len() {
        &&& asked_for(log, src)
        &&& log.made().len() > 0
        &&& result matches Ok(n) && n <= dst.len() && dst.take(n as int) == one_shot(
            src,
            log.made(),
        )
    } else if most_compressed(src.len() as int) <= usize::MAX && verbatim_stream(src).len()
        <= dst.len() {
        result matches Ok(n) && n <= dst.len() && dst.take(n as int) == verbatim_stream(src)
    } else {
        result == Err::<usize, _>(BrotliCompressError::OutputTooSmall)
    }
}

/// Compresses `src` into `dst`, reusing `cache`.
///
/// A short buffer is only reported once the verbatim stream has been ruled out
/// too.
pub fn compress_to_slice<E: BlockEncoder>(
    cache: &mut EncoderCache<E>,
    backend: Backend,
    params: &CompressParams,
    src: &[u8],
    dst: &mut [u8],
) -> (result: BrotliResult<usize>)
    requires
        old(cache).wf(),
    ensures
        final(cache).wf(),
        final(dst)@.len() == old(dst)@.len(),
        refuses_large_window(params@) ==> result == Err::<usize, _>(
            BrotliCompressError::Shared(
                SharedBrotliError::UnsupportedLargeWindow { quality: params@.quality.number() },
            ),
        ),
        !refuses_large_window(params@) && src@.len() == 0 ==> (if old(dst)@.len() == 0 {
            result == Err::<usize, _>(BrotliCompressError::OutputTooSmall)
        } else {
            result == Ok::<usize, BrotliCompressError>(1) && final(dst)@ == old(dst)@.update(0, 6)
        }),
        result matches Ok(n) ==> 0 < n <= final(dst)@.len() && n <= most_compressed(
            src@.len() as int,
        ),
        !refuses_large_window(params@) && src@.len() > 0 ==> slice_settled::<E>(
            &final(cache).log,
            started(params@, backend, src@.len() as usize, false),
            src@,
            final(dst)@,
            result,
        ),
        result is Ok && src@.len() > 0 ==> (final(cache).log.start@ matches Some(start) && start
            == started(params@, backend, src@.len() as usize, start.reused)),
        // The encoder of a stream that fits is kept for the next one. One whose stream was
        // refused or abandoned for lack of room is dropped.
        !refuses_large_window(params@) && src@.len() > 0 ==> if final(cache).log.start@ is Some
            && final(cache).log.refused@ is None && final(cache).log.made().len()
            <= final(dst)@.len() {
            retains(final(cache), backend)
        } else {
            final(cache).encoder is None
        },
        refuses_large_window(params@) || src@.len() == 0 ==> *final(cache) == *old(cache),
{
    match check_large_window(params) {
        Err(error) => return Err(error),
        Ok(_) => {},
    }
    if src.len() == 0 {
        if dst.len() == 0 {
            return Err(BrotliCompressError::OutputTooSmall);
        }
        dst[0] = 6;
        return Ok(1);
    }
    let mut encoder = match cache.acquire(backend, params, src.len()) {
        Ok(encoder) => encoder,
        Err(error) => return Err(error),
    };
    let limit: usize = block_limit(&encoder, &mut cache.log);
    let ghost first = encoder;
    let outcome: BrotliResult<usize> = drive_into(&mut encoder, limit, &mut cache.log, src, dst);
    proof {
        if cache.log.refused@ is None {
            assert(ran_through(&cache.log, first, encoder));
        } else {
            let last = choose|last: E| #[trigger]
                cache.log.ran_by(calls::of_blocks::<E>(), first, last)
                    && cache.log.refused_by(calls::of_blocks::<E>(), last);
            assert(ran_through(&cache.log, first, last));
        }
    }
    let written: Option<usize> = match outcome {
        Ok(n) => {
            assert(cache.log.calls@ == calls::schedule(src@, limit as int));
            cache.retain(encoder, backend);
            proof {
                assert(ran_through(&cache.log, first, cache.encoder->0));
                assert(cache.log.made().len() == n);
            }
            Some(n)
        },
        // The stream was abandoned part-written, so the encoder is dropped.
        Err(BrotliCompressError::OutputTooSmall) => None,
        Err(error) => return Err(error),
    };
    proof {
        lemma_verbatim_fits(src@);
        lemma_one_shot_bounded(src@, cache.log.made());
    }
    settle_slice(src, written, dst)
}

} // verus!
