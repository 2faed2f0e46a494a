use mbrotli::config::BrotliCompressError;
use mbrotli::session::{
    EncodeError, EncoderSession, EncoderStatus, InputSize, Operation, StreamConfig, StreamEncoder,
    MAX_STREAM_POSITION,
};

#[test]
fn an_unknown_size_hints_zero_the_way_the_reference_does() {
    assert_eq!(InputSize::Unknown.hint(), 0);
    assert_eq!(InputSize::Exact(0).hint(), 0);
    assert_eq!(InputSize::Exact(4096).hint(), 4096);
    assert_eq!(InputSize::Exact(u64::MAX).hint(), usize::MAX);
    assert_eq!(InputSize::default(), InputSize::Unknown);
    assert_eq!(InputSize::from(7u64), InputSize::Exact(7));
}

#[test]
fn a_stream_configuration_carries_only_what_one_stream_knows() {
    let stream = StreamConfig::default()
        .with_input_size(InputSize::Exact(10))
        .with_stream_offset(64);
    assert_eq!(stream.input_size(), InputSize::Exact(10));
    assert_eq!(stream.stream_offset(), 64);

    let plain = StreamConfig::from(InputSize::Exact(10));
    assert_eq!(plain.input_size(), InputSize::Exact(10));
    assert_eq!(plain.stream_offset(), 0);
    assert_eq!(
        StreamConfig::default(),
        StreamConfig::from(InputSize::Unknown)
    );
}

#[test]
fn the_operation_and_status_values_are_distinct() {
    assert_eq!(Operation::default(), Operation::Process);
    assert_ne!(Operation::Flush, Operation::Finish);
    assert_ne!(EncoderStatus::NeedsInput, EncoderStatus::NeedsOutput);
    assert_ne!(EncoderStatus::NeedsOutput, EncoderStatus::Finished);
}

/// An encoder that marks every answer with what was asked.
struct Marked {
    fail: bool,
}

impl StreamEncoder for Marked {
    fn encode_block(&mut self, input: &[u8], is_last: bool) -> Result<Vec<u8>, BrotliCompressError> {
        if self.fail {
            return Err(BrotliCompressError::BufferOverflow);
        }
        let mut out = vec![if is_last { b'L' } else { b'B' }];
        out.extend_from_slice(input);
        Ok(out)
    }

    fn flush_block(&mut self, input: &[u8]) -> Result<Vec<u8>, BrotliCompressError> {
        let mut out = vec![b'F'];
        out.extend_from_slice(input);
        Ok(out)
    }
}

/// Runs a whole stream through a small output.
fn stream(limit: usize, offset: u64, parts: &[(&[u8], Operation)]) -> Vec<u8> {
    let config = StreamConfig::default().with_stream_offset(offset);
    let mut session = EncoderSession::new(Marked { fail: false }, limit, config);
    let mut out = Vec::new();
    let mut output = [0u8; 3];
    for (input, operation) in parts {
        let mut rest = *input;
        loop {
            let progress = session
                .process(rest, &mut output, *operation)
                .expect("progress");
            rest = &rest[progress.consumed..];
            out.extend_from_slice(&output[..progress.produced]);
            if progress.status != EncoderStatus::NeedsOutput {
                break;
            }
        }
    }
    out
}

#[test]
fn a_full_block_waits_until_something_follows() {
    // Eight bytes fill two blocks of four; the second is the last.
    assert_eq!(
        stream(4, 0, &[(b"abcdefgh", Operation::Finish)]),
        b"BabcdLefgh"
    );
    // The same in pieces.
    assert_eq!(
        stream(
            4,
            0,
            &[
                (b"abcd", Operation::Process),
                (b"ef", Operation::Process),
                (b"gh", Operation::Finish)
            ]
        ),
        b"BabcdLefgh"
    );
    assert_eq!(stream(4, 0, &[(b"", Operation::Finish)]), b"L");
}

#[test]
fn a_flush_is_emitted_once() {
    assert_eq!(
        stream(
            4,
            0,
            &[
                (b"ab", Operation::Flush),
                (b"", Operation::Flush),
                (b"c", Operation::Finish)
            ]
        ),
        b"FabLc"
    );
}

#[test]
fn a_continued_stream_flushes_its_first_two_bytes() {
    assert_eq!(
        stream(4, 9, &[(b"abcde", Operation::Finish)]),
        b"FabLcde"
    );
}

#[test]
fn a_finished_session_stays_finished_and_a_failed_one_failed() {
    let mut session = EncoderSession::new(Marked { fail: false }, 4, StreamConfig::default());
    let mut output = [0u8; 16];
    let progress = session
        .process(b"a", &mut output, Operation::Finish)
        .expect("finished");
    assert_eq!(progress.status, EncoderStatus::Finished);
    assert!(session.is_finished());
    let again = session
        .process(b"zz", &mut output, Operation::Process)
        .expect("still finished");
    assert_eq!((again.consumed, again.produced), (0, 0));
    assert_eq!(again.status, EncoderStatus::Finished);

    let mut session = EncoderSession::new(Marked { fail: true }, 4, StreamConfig::default());
    assert_eq!(
        session.process(b"a", &mut output, Operation::Finish),
        Err(EncodeError::Compress(BrotliCompressError::BufferOverflow))
    );
    assert_eq!(
        session.process(b"a", &mut output, Operation::Finish),
        Err(EncodeError::InvalidState {
            attempted: "process a stream that has already failed"
        })
    );
}

#[test]
fn a_stream_ends_at_the_last_position() {
    let near = StreamConfig::default().with_stream_offset(MAX_STREAM_POSITION - 1);
    let mut session = EncoderSession::new(Marked { fail: false }, 4, near);
    let mut output = [0u8; 16];
    assert_eq!(
        session.process(b"abc", &mut output, Operation::Process),
        Err(EncodeError::StreamPositionOverflow {
            position: MAX_STREAM_POSITION - 1,
            input_bytes: 3
        })
    );
    assert!(session
        .process(b"a", &mut output, Operation::Process)
        .is_ok());
}

#[test]
fn a_session_is_not_finished_while_output_waits() {
    let mut session = EncoderSession::new(Marked { fail: false }, 4, StreamConfig::default());
    let mut output = [0u8; 2];
    let progress = session
        .process(b"abc", &mut output, Operation::Finish)
        .expect("partly out");
    assert_eq!((progress.consumed, progress.produced), (3, 2));
    assert_eq!(progress.status, EncoderStatus::NeedsOutput);
    assert!(!session.is_finished());
    let progress = session
        .process(b"", &mut output, Operation::Finish)
        .expect("the rest");
    assert_eq!(&output[..progress.produced], b"bc");
    assert_eq!(progress.status, EncoderStatus::Finished);
    assert!(session.is_finished());
}

#[test]
fn a_finished_session_takes_nothing_not_even_too_much() {
    let near = StreamConfig::default().with_stream_offset(MAX_STREAM_POSITION - 1);
    let mut session = EncoderSession::new(Marked { fail: false }, 4, near);
    let mut output = [7u8; 8];
    let progress = session
        .process(b"a", &mut output, Operation::Finish)
        .expect("finished");
    assert_eq!(progress.status, EncoderStatus::Finished);
    // Nothing is written behind what was produced.
    assert!(progress.produced < 8);
    assert!(output[progress.produced..].iter().all(|&byte| byte == 7));
    let again = session
        .process(b"past the last position", &mut output, Operation::Process)
        .expect("still finished");
    assert_eq!((again.consumed, again.produced), (0, 0));
    assert_eq!(again.status, EncoderStatus::Finished);
    assert!(session.is_finished());
}

#[test]
fn a_session_without_its_encoder_says_so() {
    let mut session = EncoderSession::new(Marked { fail: false }, 4, StreamConfig::default());
    session.encoder = None;
    let mut output = [0u8; 8];
    assert_eq!(
        session.process(b"a", &mut output, Operation::Finish),
        Err(EncodeError::InternalInvariant {
            detail: "a session outlived the encoder it was started with"
        })
    );
}
