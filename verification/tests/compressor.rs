use mbrotli::backend::Backend;
use mbrotli::compressor::Compressor;
use mbrotli::config::{
    BrotliCompressError, BrotliResult, CompressParams, QualityLevel, SharedBrotliError, WindowBits,
};
use mbrotli::driver::{compress_to_slice, compress_to_vec, BlockEncoder, EncoderCache, Family};
use mbrotli::encoder::{Encoder, FastBlocks, HqBlocks};
use mbrotli::fast::fragment::GiveUp;
use mbrotli::hq::candidates::{NoCopies, NoPrefix};
use mbrotli::hq::encoder::StoreOnly;
use mbrotli::hq::nodes::PriceTable;
use mbrotli::reader::{Bytes, Source, Step};
use mbrotli::session::{EncoderSession, EncoderStatus, Operation, StreamConfig, StreamEncoder};

/// The most an encoder of these tests takes at once.
const LIMIT: usize = 16;

/// An encoder whose answers depend on everything it was asked so far.
struct Chained {
    state: u8,
    build: Family,
    refuse_blocks: bool,
    short: bool,
    swell: bool,
}

impl Chained {
    fn fresh() -> Self {
        Chained {
            state: 1,
            build: Family::Greedy,
            refuse_blocks: false,
            short: false,
            swell: false,
        }
    }

    fn answer(&mut self, input: &[u8], mark: u8) -> Vec<u8> {
        for byte in input {
            self.state = self.state.wrapping_mul(31).wrapping_add(*byte);
        }
        let mut out = vec![mark, input.len() as u8, self.state];
        if self.swell {
            out.extend_from_slice(&[0u8; 64]);
        }
        out
    }
}

impl BlockEncoder for Chained {
    fn build(
        family: Family,
        _backend: Backend,
        params: &CompressParams,
        _size_hint: usize,
    ) -> BrotliResult<Self> {
        if params.quality() == QualityLevel::Q9 {
            return Err(BrotliCompressError::UnsupportedQuality(9));
        }
        Ok(Chained {
            build: family,
            refuse_blocks: params.quality() == QualityLevel::Q7,
            short: params.quality() == QualityLevel::Q6,
            swell: params.quality() == QualityLevel::Q8,
            ..Chained::fresh()
        })
    }

    fn reset_for(&mut self, _params: &CompressParams, _size_hint: usize) -> bool {
        self.build == Family::Hq
    }

    fn block_size_limit(&self) -> usize {
        LIMIT
    }

    fn encode_block(&mut self, input: &[u8], is_last: bool) -> BrotliResult<Vec<u8>> {
        if self.refuse_blocks {
            return Err(BrotliCompressError::BufferOverflow);
        }
        if self.short {
            return Err(BrotliCompressError::OutputTooSmall);
        }
        Ok(self.answer(input, u8::from(is_last)))
    }
}

impl StreamEncoder for Chained {
    fn encode_block(&mut self, input: &[u8], is_last: bool) -> Result<Vec<u8>, BrotliCompressError> {
        Ok(self.answer(input, u8::from(is_last)))
    }

    fn flush_block(&mut self, input: &[u8]) -> Result<Vec<u8>, BrotliCompressError> {
        Ok(self.answer(input, 2))
    }
}

/// A source that delivers a few bytes at a time.
struct Trickle {
    bytes: Vec<u8>,
    at: usize,
    step: usize,
}

impl Source for Trickle {
    type Error = &'static str;

    fn read(&mut self, buffer: &mut [u8]) -> Result<usize, &'static str> {
        let count = self.step.min(self.bytes.len() - self.at).min(buffer.len());
        buffer[..count].copy_from_slice(&self.bytes[self.at..self.at + count]);
        self.at += count;
        Ok(count)
    }
}

fn params(quality: QualityLevel) -> CompressParams {
    CompressParams::new(quality, WindowBits::default())
}

fn input(len: usize) -> Vec<u8> {
    (0..len).map(|i| (i * 7 % 251) as u8).collect()
}

fn through_session(src: &[u8], piece: usize, room: usize) -> Vec<u8> {
    let mut session = EncoderSession::new(Chained::fresh(), LIMIT, StreamConfig::default());
    let mut out = Vec::new();
    let mut output = vec![0u8; room];
    let mut at = 0;
    loop {
        let end = (at + piece).min(src.len());
        let operation = if end == src.len() {
            Operation::Finish
        } else {
            Operation::Process
        };
        let progress = session
            .process(&src[at..end], &mut output, operation)
            .expect("progress");
        at += progress.consumed;
        out.extend_from_slice(&output[..progress.produced]);
        if progress.status == EncoderStatus::Finished {
            return out;
        }
    }
}

fn through_reader(src: &[u8], step: usize, room: usize) -> Vec<u8> {
    let source = Trickle {
        bytes: src.to_vec(),
        at: 0,
        step,
    };
    let mut reader = Compressor::from(Backend::scalar())
        .compress_reader::<Trickle, Chained>(params(QualityLevel::Q5), source);
    let mut out = Vec::new();
    let mut buf = vec![0u8; room];
    loop {
        match reader.step(&mut buf).expect("a step") {
            Step::Served(count) => out.extend_from_slice(&buf[..count]),
            Step::Again => {}
            Step::End => return out,
        }
    }
}

#[test]
fn every_way_of_compressing_makes_the_same_bytes() {
    let compressor = Compressor::from(Backend::scalar());
    for len in [1, 15, 16, 17, 32, 33, 100, 160] {
        let src = input(len);
        let once = compressor
            .compress::<Chained>(params(QualityLevel::Q5), &src)
            .expect("at once");
        assert_eq!(once.len(), 3 * len.div_ceil(LIMIT), "{len} bytes");
        let mut dst = vec![0u8; 64];
        let used = compressor
            .compress_to_slice::<Chained>(params(QualityLevel::Q5), &src, &mut dst)
            .expect("into a slice");
        assert_eq!(&dst[..used], &once[..], "{len} bytes");
        for piece in [1, 5, 16, 17, 200] {
            for room in [1, 2, 64] {
                assert_eq!(through_session(&src, piece, room), once, "{len} by {piece}");
                assert_eq!(through_reader(&src, piece, room), once, "{len} by {piece}");
            }
        }
    }
}

#[test]
fn a_flush_changes_what_the_encoder_is_asked() {
    let src = input(20);
    let mut session = EncoderSession::new(Chained::fresh(), LIMIT, StreamConfig::default());
    let mut output = [0u8; 64];
    let first = session
        .process(&src[..10], &mut output, Operation::Flush)
        .expect("flushed");
    let mut out = output[..first.produced].to_vec();
    let second = session
        .process(&src[10..], &mut output, Operation::Finish)
        .expect("finished");
    out.extend_from_slice(&output[..second.produced]);
    assert_eq!(out[0], 2);
    assert_eq!(out[1], 10);
    assert_ne!(out, through_session(&src, 20, 64));
}

#[test]
fn a_stream_that_is_too_long_is_held_verbatim() {
    let compressor = Compressor::from(Backend::scalar());
    let made = compressor
        .compress::<Chained>(params(QualityLevel::Q8), b"hello")
        .expect("swollen");
    assert_eq!(made, b"\x21\x03\x20\x00\x08hello\x03");
    let mut dst = [0u8; 11];
    assert_eq!(
        compressor
            .compress_to_slice::<Chained>(params(QualityLevel::Q8), b"hello", &mut dst)
            .ok(),
        Some(11)
    );
    assert_eq!(&dst[..], &made[..]);
    // Without room for either there is nothing to write.
    let mut dst = [0u8; 10];
    assert!(matches!(
        compressor.compress_to_slice::<Chained>(params(QualityLevel::Q8), b"hello", &mut dst),
        Err(BrotliCompressError::OutputTooSmall)
    ));
}

#[test]
fn an_empty_input_needs_no_encoder() {
    let compressor = Compressor::from(Backend::scalar());
    assert_eq!(
        compressor
            .compress::<Chained>(params(QualityLevel::Q9), b"")
            .expect("one byte"),
        [6]
    );
    let mut dst = [9u8; 2];
    assert_eq!(
        compressor
            .compress_to_slice::<Chained>(params(QualityLevel::Q9), b"", &mut dst)
            .ok(),
        Some(1)
    );
    assert_eq!(dst, [6, 9]);
    assert!(matches!(
        compressor.compress_to_slice::<Chained>(params(QualityLevel::Q9), b"", &mut []),
        Err(BrotliCompressError::OutputTooSmall)
    ));
}

#[test]
fn a_refusal_is_passed_on() {
    let compressor = Compressor::from(Backend::scalar());
    let mut dst = [0u8; 64];
    assert!(matches!(
        compressor.compress::<Chained>(params(QualityLevel::Q9), b"abc"),
        Err(BrotliCompressError::UnsupportedQuality(9))
    ));
    assert!(matches!(
        compressor.compress_to_slice::<Chained>(params(QualityLevel::Q9), b"abc", &mut dst),
        Err(BrotliCompressError::UnsupportedQuality(9))
    ));
    assert!(matches!(
        compressor.compress::<Chained>(params(QualityLevel::Q7), b"abc"),
        Err(BrotliCompressError::BufferOverflow)
    ));
    assert!(matches!(
        compressor.compress_to_slice::<Chained>(params(QualityLevel::Q7), b"abc", &mut dst),
        Err(BrotliCompressError::BufferOverflow)
    ));
    // An encoder that ran out of room leaves it to the verbatim stream.
    assert_eq!(
        compressor
            .compress_to_slice::<Chained>(params(QualityLevel::Q6), b"abc", &mut dst)
            .ok(),
        Some(9)
    );
    assert_eq!(&dst[..9], b"\x21\x03\x10\x00\x08abc\x03");
    assert!(matches!(
        compressor.compress::<Chained>(params(QualityLevel::Q6), b"abc"),
        Err(BrotliCompressError::OutputTooSmall)
    ));
}

#[test]
fn a_large_window_is_refused_at_the_lowest_qualities() {
    let compressor = Compressor::from(Backend::scalar());
    let window = WindowBits::large(26).expect("a large window");
    for quality in [QualityLevel::Q0, QualityLevel::Q1, QualityLevel::Q2] {
        let number = usize::from(quality);
        assert!(matches!(
            compressor.compress::<Chained>(CompressParams::new(quality, window), b"abc"),
            Err(BrotliCompressError::Shared(SharedBrotliError::UnsupportedLargeWindow { quality }))
                if quality == number
        ));
    }
    assert!(compressor
        .compress::<Chained>(CompressParams::new(QualityLevel::Q3, window), b"abc")
        .is_ok());
}

#[test]
fn a_bound_covers_what_compressing_makes() {
    let compressor = Compressor::from(Backend::scalar());
    let params = params(QualityLevel::Q5);
    for len in [0usize, 1, 100, 5000] {
        let most = compressor.calculate_bound(&params, len).expect("a bound");
        assert!(most >= len, "{len} bytes");
    }
    assert!(matches!(
        compressor.calculate_bound(&params, usize::MAX),
        Err(BrotliCompressError::BoundOverflow)
    ));
}

#[test]
fn every_backend_is_asked_the_same() {
    let src = input(100);
    let mut streams = Vec::new();
    for backend in Backend::available() {
        let compressor = Compressor::from(backend);
        streams.push(
            compressor
                .compress::<Chained>(params(QualityLevel::Q5), &src)
                .expect("compressed"),
        );
    }
    assert!(!streams.is_empty());
    assert!(streams.iter().all(|stream| stream == &streams[0]));
}

/// The library's own encoders, which store what they are given.
type Stored = Encoder<Chained, GiveUp, PriceTable, NoCopies, NoPrefix, StoreOnly>;

#[test]
fn the_fast_and_high_quality_encoders_serve_the_entry_points() {
    let compressor = Compressor::from(Backend::scalar());
    for quality in [
        QualityLevel::Q0,
        QualityLevel::Q1,
        QualityLevel::Q10,
        QualityLevel::Q11,
    ] {
        let made = compressor
            .compress::<Stored>(params(quality), b"hello")
            .expect("stored");
        assert_eq!(made, b"\x0b\x02\x80hello\x03", "{quality:?}");
        let mut dst = [0u8; 64];
        let used = compressor
            .compress_to_slice::<Stored>(params(quality), b"hello", &mut dst)
            .expect("into a slice");
        assert_eq!(&dst[..used], &made[..], "{quality:?}");
    }
    // The greedy qualities go to the encoder that was named for them.
    let made = compressor
        .compress::<Stored>(params(QualityLevel::Q5), b"hello")
        .expect("greedy");
    assert_eq!(made[..2], [1, 5]);
}

#[test]
fn an_encoder_serves_another_stream_of_its_shape() {
    let mut fast = <FastBlocks<GiveUp> as BlockEncoder>::build(
        Family::Fast,
        Backend::scalar(),
        &params(QualityLevel::Q0),
        0,
    )
    .ok()
    .expect("fast");
    let first = fast.encode_block(b"hello", true).expect("stored");
    assert!(!fast.reset_for(&params(QualityLevel::Q1), 0));
    assert!(!fast.reset_for(&params(QualityLevel::Q10), 0));
    assert!(fast.reset_for(&params(QualityLevel::Q0), 0));
    assert_eq!(fast.encode_block(b"hello", true).expect("again"), first);

    let mut hq = <HqBlocks<PriceTable, NoCopies, NoPrefix, StoreOnly> as BlockEncoder>::build(
        Family::Hq,
        Backend::scalar(),
        &params(QualityLevel::Q10),
        0,
    )
    .ok()
    .expect("high quality");
    assert_eq!(hq.block_size_limit(), 1 << 18);
    let first = hq.encode_block(b"hello", true).expect("stored");
    assert!(!hq.reset_for(&params(QualityLevel::Q11), 0));
    assert!(!hq.reset_for(&params(QualityLevel::Q0), 0));
    assert!(hq.reset_for(&params(QualityLevel::Q10), 0));
    assert_eq!(hq.encode_block(b"hello", true).expect("again"), first);
    // A stream that has ended takes nothing more.
    assert!(hq.encode_block(b"more", true).is_err());
    assert!(!hq.reset_for(&params(QualityLevel::Q10), 0));
}

#[test]
fn a_vector_is_read_to_its_end() {
    let mut source = Bytes {
        data: b"abcde".to_vec(),
        at: 0,
    };
    let mut buffer = [9u8; 3];
    assert_eq!(source.read(&mut buffer), Ok(3));
    assert_eq!(&buffer, b"abc");
    assert_eq!(source.read(&mut buffer), Ok(2));
    assert_eq!(&buffer, b"dec");
    assert_eq!(source.read(&mut buffer), Ok(0));
    assert_eq!(source.read(&mut []), Ok(0));

    let compressor = Compressor::from(Backend::scalar());
    let src = input(100);
    let mut reader = compressor.compress_reader::<Bytes, Stored>(
        params(QualityLevel::Q10),
        Bytes { data: src.clone(), at: 0 },
    );
    let mut out = Vec::new();
    let mut room = [0u8; 7];
    loop {
        match reader.step(&mut room).expect("read") {
            Step::Served(count) => out.extend_from_slice(&room[..count]),
            Step::Again => {}
            Step::End => break,
        }
    }
    assert!(out.windows(src.len()).any(|part| part == &src[..]));
    assert_eq!(out.last(), Some(&3));
}

#[test]
fn caches_backends_and_buffers_make_the_same_bytes() {
    let src = input(5000);
    for quality in [
        QualityLevel::Q0,
        QualityLevel::Q1,
        QualityLevel::Q5,
        QualityLevel::Q10,
        QualityLevel::Q11,
    ] {
        let settings = params(quality);
        let expected = Compressor::from(Backend::scalar())
            .compress::<Stored>(params(quality), &src)
            .expect("fresh");
        for backend in Backend::available() {
            let mut cache: EncoderCache<Stored> = EncoderCache::new();
            let mut out = Vec::new();
            compress_to_vec(&mut cache, backend, &settings, b"something else", &mut out)
                .expect("another stream before");
            out.clear();
            compress_to_vec(&mut cache, backend, &settings, &src, &mut out).expect("vector");
            assert_eq!(out, expected, "{quality:?}");
            let mut dst = vec![0u8; expected.len()];
            let used = compress_to_slice(&mut cache, backend, &settings, &src, &mut dst)
                .expect("a buffer that is just large enough");
            assert_eq!(used, expected.len(), "{quality:?}");
            assert_eq!(dst, expected, "{quality:?}");
        }
    }
}

#[test]
fn a_block_that_is_too_large_is_refused_and_the_stream_goes_on() {
    let mut fast = <FastBlocks<GiveUp> as BlockEncoder>::build(
        Family::Fast,
        Backend::scalar(),
        &params(QualityLevel::Q0),
        0,
    )
    .ok()
    .expect("fast");
    let huge = vec![0u8; (1 << 24) + 1];
    assert!(matches!(
        fast.encode_block(&huge, false),
        Err(BrotliCompressError::BufferOverflow)
    ));
    assert_eq!(fast.encode_block(b"", false).expect("nothing to do"), b"");
    assert_eq!(
        fast.encode_block(b"hello", true).expect("stored"),
        b"\x0b\x02\x80hello\x03"
    );

    // The high-quality encoder is lost with a block that it does not take.
    let mut hq = <HqBlocks<PriceTable, NoCopies, NoPrefix, StoreOnly> as BlockEncoder>::build(
        Family::Hq,
        Backend::scalar(),
        &params(QualityLevel::Q10),
        0,
    )
    .ok()
    .expect("high quality");
    assert!(matches!(
        hq.encode_block(&huge, false),
        Err(BrotliCompressError::BufferOverflow)
    ));
    assert_eq!(hq.block_size_limit(), 1);
    assert!(matches!(
        hq.encode_block(b"hello", true),
        Err(BrotliCompressError::BufferOverflow)
    ));
}
