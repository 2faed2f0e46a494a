use mbrotli::backend::Backend;
use mbrotli::config::{
    BrotliCompressError, BrotliResult, CompressParams, QualityLevel, SharedBrotliError, WindowBits,
};
use mbrotli::driver::{
    check_large_window, compress_to_slice, compress_to_vec, make_uncompressed_stream,
    max_compressed_size, next_block, quality_reads_a_prefix, resolve_size_hint, settle_slice,
    BlockEncoder, EncoderCache, Family,
};

/// The window with which the encoder below is refused.
const REFUSED: usize = 11;

/// The window with which it makes its input longer.
const SWOLLEN: usize = 12;

/// An encoder that answers with a marked copy of its input.
#[derive(Debug)]
struct Marked {
    family: Family,
    hint: usize,
    swell: bool,
}

impl BlockEncoder for Marked {
    fn build(
        family: Family,
        _backend: Backend,
        params: &CompressParams,
        size_hint: usize,
    ) -> BrotliResult<Self> {
        if usize::from(params.lgwin()) == REFUSED {
            return Err(BrotliCompressError::UnsupportedQuality(9));
        }
        Ok(Marked {
            family,
            hint: size_hint,
            swell: usize::from(params.lgwin()) == SWOLLEN,
        })
    }

    fn reset_for(&mut self, params: &CompressParams, size_hint: usize) -> bool {
        self.family == Family::route(params.quality()) && self.hint == size_hint
    }

    fn block_size_limit(&self) -> usize {
        1000
    }

    fn encode_block(&mut self, input: &[u8], is_last: bool) -> BrotliResult<Vec<u8>> {
        let mut out = vec![u8::from(is_last)];
        if self.swell {
            out.extend_from_slice(&[0u8; 2000]);
        }
        out.push(input.len() as u8);
        Ok(out)
    }
}

fn params(quality: QualityLevel, lgwin: u8) -> CompressParams {
    let lgwin = WindowBits::standard(lgwin).unwrap_or_default();
    CompressParams::new(quality, lgwin)
}

/// Every quality.
const IMPLEMENTED: [QualityLevel; 12] = [
    QualityLevel::Q0,
    QualityLevel::Q1,
    QualityLevel::Q2,
    QualityLevel::Q3,
    QualityLevel::Q4,
    QualityLevel::Q5,
    QualityLevel::Q6,
    QualityLevel::Q7,
    QualityLevel::Q8,
    QualityLevel::Q9,
    QualityLevel::Q10,
    QualityLevel::Q11,
];

#[test]
fn quality_routing_reaches_both_encoders() {
    for quality in IMPLEMENTED {
        match (quality, Family::route(quality)) {
            (QualityLevel::Q0 | QualityLevel::Q1, Family::Fast) => {}
            (
                QualityLevel::Q2
                | QualityLevel::Q3
                | QualityLevel::Q4
                | QualityLevel::Q5
                | QualityLevel::Q6
                | QualityLevel::Q7
                | QualityLevel::Q8
                | QualityLevel::Q9,
                Family::Greedy,
            ) => {}
            (QualityLevel::Q10 | QualityLevel::Q11, Family::Hq) => {}
            (quality, _) => panic!("quality {quality:?} routed to the wrong encoder"),
        }
    }
}

#[test]
fn slice_output_reports_a_too_small_buffer() {
    let mut dst = [0u8; 1];
    for quality in IMPLEMENTED {
        let mut cache: EncoderCache<Marked> = EncoderCache::new();
        assert!(matches!(
            compress_to_slice(
                &mut cache,
                Backend::scalar(),
                &params(quality, 22),
                b"hello world hello world",
                &mut dst
            ),
            Err(BrotliCompressError::OutputTooSmall)
        ));
    }
}

#[test]
fn vector_and_slice_outputs_agree() {
    for quality in IMPLEMENTED {
        let params = params(quality, 22);
        let input: Vec<u8> = (0..100_000u32).map(|i| (i % 251) as u8).collect();
        let mut expected = Vec::new();
        let mut cache: EncoderCache<Marked> = EncoderCache::new();
        compress_to_vec(&mut cache, Backend::scalar(), &params, &input, &mut expected)
            .expect("vector output");
        let mut actual = vec![0u8; expected.len()];
        let written = compress_to_slice(&mut cache, Backend::scalar(), &params, &input, &mut actual)
            .expect("slice output");
        assert_eq!(written, expected.len(), "quality {quality:?}");
        assert_eq!(actual, expected, "quality {quality:?}");
    }
}

#[test]
fn an_empty_input_is_one_byte() {
    for quality in IMPLEMENTED {
        let mut cache: EncoderCache<Marked> = EncoderCache::new();
        let mut out = Vec::new();
        compress_to_vec(
            &mut cache,
            Backend::scalar(),
            &params(quality, 22),
            b"",
            &mut out,
        )
        .expect("empty input");
        assert_eq!(out, vec![6]);

        let mut dst = [0u8; 4];
        assert_eq!(
            compress_to_slice(
                &mut cache,
                Backend::scalar(),
                &params(quality, 22),
                b"",
                &mut dst
            )
            .ok(),
            Some(1)
        );
        assert_eq!(dst[0], 6);
    }
}

#[test]
fn the_maximum_compressed_size_matches_the_reference() {
    assert_eq!(max_compressed_size(0), Some(2));
    assert_eq!(max_compressed_size(1), Some(1 + 6));
    assert_eq!(max_compressed_size(1 << 14), Some((1 << 14) + 10));
    assert_eq!(max_compressed_size(usize::MAX), None);
}

#[test]
fn the_uncompressed_fallback_is_a_valid_stream_shape() {
    let mut out = Vec::new();
    make_uncompressed_stream(b"", &mut out);
    assert_eq!(out, vec![6]);

    let payload: Vec<u8> = (0..70_000u32).map(|i| (i % 251) as u8).collect();
    let mut out = Vec::new();
    make_uncompressed_stream(&payload, &mut out);
    assert_eq!(out[0], 0x21);
    assert_eq!(out[1], 0x03);
    assert_eq!(out[out.len() - 1], 3);
    assert!(out.len() > payload.len());
    assert!(out
        .windows(payload.len())
        .any(|slice| slice == payload.as_slice()));
}

#[test]
fn a_verbatim_stream_holds_the_whole_input() {
    let payload: Vec<u8> = (0..1000u32).map(|i| (i * 7 % 256) as u8).collect();
    let mut out = vec![0xEE];
    make_uncompressed_stream(&payload, &mut out);
    assert_eq!(out[0], 0xEE);
    let body = &out[1..];
    assert!(body.len() <= max_compressed_size(payload.len()).expect("a bound"));
    assert_eq!(&body[body.len() - 1 - payload.len()..body.len() - 1], &payload[..]);
}

#[test]
fn the_cache_reuses_an_encoder_of_the_same_shape() {
    for quality in IMPLEMENTED {
        let params = params(quality, 22).with_size_hint(Some(1 << 20));
        let mut cache: EncoderCache<Marked> = EncoderCache::new();
        let mut first = cache
            .acquire(Backend::scalar(), &params, 100)
            .expect("first acquire");
        first.hint = 1 << 20;
        first.swell = true;
        cache.retain(first, Backend::scalar());
        assert!(cache.encoder.is_some(), "quality {quality:?}: nothing was retained");
        let second = cache
            .acquire(Backend::scalar(), &params, 5000)
            .expect("second acquire");
        assert!(second.swell, "an identically shaped call rebuilt the encoder");
    }
}

#[test]
fn the_cache_rebuilds_when_the_shape_changes() {
    let mut cache: EncoderCache<Marked> = EncoderCache::new();
    let first = cache
        .acquire(Backend::scalar(), &params(QualityLevel::Q0, 22), 1000)
        .expect("first acquire");
    assert_eq!(first.family, Family::Fast);
    cache.retain(first, Backend::scalar());
    let second = cache
        .acquire(Backend::scalar(), &params(QualityLevel::Q11, 22), 1000)
        .expect("second acquire");
    assert_eq!(second.family, Family::Hq);
}

#[test]
fn the_cache_rebuilds_when_the_size_hint_moves_the_matcher() {
    let small = params(QualityLevel::Q5, 22).with_size_hint(Some(1024));
    let large = params(QualityLevel::Q5, 22).with_size_hint(Some(8 << 20));
    let mut cache: EncoderCache<Marked> = EncoderCache::new();
    let first = cache
        .acquire(Backend::scalar(), &small, 1024)
        .expect("first acquire");
    cache.retain(first, Backend::scalar());
    let mut second = cache
        .acquire(Backend::scalar(), &large, 1024)
        .expect("second acquire");
    assert!(!second.reset_for(&small, 1024));
}

#[test]
fn invalidating_drops_the_retained_encoder() {
    let mut cache: EncoderCache<Marked> = EncoderCache::new();
    let encoder = cache
        .acquire(Backend::scalar(), &params(QualityLevel::Q5, 22), 1000)
        .expect("acquire");
    cache.retain(encoder, Backend::scalar());
    assert!(cache.encoder.is_some());

    cache.invalidate();
    assert!(cache.encoder.is_none(), "invalidate kept the encoder");
    assert!(cache.backend.is_none(), "invalidate kept the level");
}

#[test]
fn a_failed_call_leaves_the_output_and_drops_the_encoder() {
    let mut cache: EncoderCache<Marked> = EncoderCache::new();
    let mut out = vec![1, 2, 3];
    assert!(matches!(
        compress_to_vec(
            &mut cache,
            Backend::scalar(),
            &params(QualityLevel::Q9, REFUSED as u8),
            b"abc",
            &mut out
        ),
        Err(BrotliCompressError::UnsupportedQuality(9))
    ));
    assert_eq!(out, [1, 2, 3]);
    assert!(cache.encoder.is_none());
}

#[test]
fn a_stream_that_swells_is_replaced_by_the_input_verbatim() {
    let mut cache: EncoderCache<Marked> = EncoderCache::new();
    let mut out = Vec::new();
    compress_to_vec(
        &mut cache,
        Backend::scalar(),
        &params(QualityLevel::Q8, SWOLLEN as u8),
        b"a short input",
        &mut out,
    )
    .expect("fallback");
    let mut verbatim = Vec::new();
    make_uncompressed_stream(b"a short input", &mut verbatim);
    assert_eq!(out, verbatim);
}

#[test]
fn a_large_window_needs_a_quality_that_carries_it() {
    let wide = WindowBits::large(30).expect("a large window");
    assert!(matches!(
        check_large_window(&CompressParams::new(QualityLevel::Q2, wide)),
        Err(BrotliCompressError::Shared(
            SharedBrotliError::UnsupportedLargeWindow { quality: 2 }
        ))
    ));
    assert!(check_large_window(&CompressParams::new(QualityLevel::Q3, wide)).is_ok());
    assert!(check_large_window(&params(QualityLevel::Q0, 24)).is_ok());
}

#[test]
fn blocks_cover_an_input_in_order() {
    assert_eq!(next_block(2500, 0, 1000), (1000, false));
    assert_eq!(next_block(2500, 2000, 1000), (500, true));
    assert_eq!(next_block(2000, 1000, 1000), (1000, true));
    assert_eq!(next_block(0, 0, 1000), (0, true));
}

#[test]
fn a_size_hint_beats_the_known_size() {
    let plain = params(QualityLevel::Q5, 22);
    assert_eq!(resolve_size_hint(&plain, 77), 77);
    assert_eq!(resolve_size_hint(&plain.with_size_hint(Some(5)), 77), 5);
}

#[test]
fn a_short_slice_takes_the_input_verbatim_where_it_fits() {
    let mut dst = [0u8; 64];
    let written = settle_slice(b"abc", None, &mut dst).expect("verbatim");
    let mut verbatim = Vec::new();
    make_uncompressed_stream(b"abc", &mut verbatim);
    assert_eq!(&dst[..written], &verbatim[..]);
    assert_eq!(settle_slice(b"abc", Some(2), &mut dst).ok(), Some(2));
}

#[test]
fn only_some_qualities_read_a_prefix() {
    assert!(!quality_reads_a_prefix(QualityLevel::Q0));
    assert!(!quality_reads_a_prefix(QualityLevel::Q1));
    assert!(quality_reads_a_prefix(QualityLevel::Q11));
}

/// An encoder that says it takes nothing at once.
struct Modest;

impl BlockEncoder for Modest {
    fn build(
        _family: Family,
        _backend: Backend,
        _params: &CompressParams,
        _size_hint: usize,
    ) -> BrotliResult<Self> {
        Ok(Modest)
    }

    fn reset_for(&mut self, _params: &CompressParams, _size_hint: usize) -> bool {
        false
    }

    fn block_size_limit(&self) -> usize {
        0
    }

    fn encode_block(&mut self, input: &[u8], is_last: bool) -> BrotliResult<Vec<u8>> {
        Ok(vec![input.len() as u8 + if is_last { 10 } else { 0 }])
    }
}

#[test]
fn an_encoder_is_handed_at_least_one_byte_at_once() {
    let mut cache: EncoderCache<Modest> = EncoderCache::new();
    let mut out = Vec::new();
    for _ in 0..2 {
        out.clear();
        compress_to_vec(
            &mut cache,
            Backend::scalar(),
            &params(QualityLevel::Q5, 22),
            b"abcd",
            &mut out,
        )
        .expect("compressed");
        assert_eq!(out, [1, 1, 1, 11]);
    }
}

#[test]
fn an_encoder_is_kept_after_a_stream_and_dropped_with_one_that_is_abandoned() {
    let settings = params(QualityLevel::Q5, 22);
    let mut cache: EncoderCache<Marked> = EncoderCache::new();
    let mut out = Vec::new();
    compress_to_vec(&mut cache, Backend::scalar(), &settings, b"", &mut out).expect("empty");
    assert!(cache.encoder.is_none());
    compress_to_vec(&mut cache, Backend::scalar(), &settings, b"abc", &mut out).expect("vector");
    assert!(cache.encoder.is_some());
    assert_eq!(cache.backend, Some(Backend::scalar()));
    let mut dst = [0u8; 2];
    assert_eq!(
        compress_to_slice(&mut cache, Backend::scalar(), &settings, b"abc", &mut dst).ok(),
        Some(2)
    );
    assert!(cache.encoder.is_some());
    // A window that is refused leaves the cache alone.
    let wide = CompressParams::new(
        QualityLevel::Q0,
        WindowBits::large(30).expect("a large window"),
    );
    assert!(compress_to_vec(&mut cache, Backend::scalar(), &wide, b"abc", &mut out).is_err());
    assert!(cache.encoder.is_some());
    assert!(matches!(
        compress_to_slice(&mut cache, Backend::scalar(), &settings, b"abc", &mut dst[..1]),
        Err(BrotliCompressError::OutputTooSmall)
    ));
    assert!(cache.encoder.is_none());
    assert!(cache.backend.is_none());

    // The input verbatim fits where the stream does not, and the encoder is dropped.
    let swollen = params(QualityLevel::Q5, SWOLLEN as u8);
    let mut dst = [0u8; 64];
    assert!(compress_to_slice(&mut cache, Backend::scalar(), &swollen, b"abc", &mut dst).is_ok());
    assert!(cache.encoder.is_none());
}
