use mbrotli::config::BrotliCompressError;
use mbrotli::framing::container::{check_write, footer, number, Container};
use mbrotli::framing::session::{
    FramedEncodeError, FramedEncodeOperation, FramedEncoderSession, FramedEncoderStatus,
};
use mbrotli::framing::types::{
    DictionaryId, DictionaryReference, FramingConfig, FramingError, MetadataField, MetadataKind,
    ResourceOptions, Sink, SinkError,
};
use mbrotli::framing::varint;
use mbrotli::framing::writer::{Encoders, FramedWriter};
use mbrotli::session::{EncodeError, Operation, StreamConfig, StreamEncoder};

/// A sink that takes everything, unless told to fail or to take little.
#[derive(Debug, Default)]
struct Collected {
    bytes: Vec<u8>,
    stuck: bool,
    little: bool,
    flushed: usize,
}

impl Sink for Collected {
    fn write(&mut self, bytes: &[u8]) -> Result<usize, SinkError> {
        if self.stuck {
            return Err(SinkError::Failed);
        }
        let count = if self.little { 1 } else { bytes.len() };
        self.bytes.extend_from_slice(&bytes[..count]);
        Ok(count)
    }

    fn flush(&mut self) -> Result<(), SinkError> {
        self.flushed += 1;
        Ok(())
    }
}

/// An encoder that hands every byte back inverted.
struct Inverted;

impl StreamEncoder for Inverted {
    fn encode_block(&mut self, input: &[u8], _is_last: bool) -> Result<Vec<u8>, BrotliCompressError> {
        Ok(input.iter().map(|byte| !byte).collect())
    }

    fn flush_block(&mut self, input: &[u8]) -> Result<Vec<u8>, BrotliCompressError> {
        Ok(input.iter().map(|byte| !byte).collect())
    }
}

/// Hands inverting encoders out.
#[derive(Default)]
struct Inverters {
    large: bool,
    refuse: bool,
    limit: usize,
}

impl Encoders for Inverters {
    type Encoder = Inverted;
    type Dictionary = Vec<u8>;

    fn is_large_window(&self) -> bool {
        self.large
    }

    fn start(
        &mut self,
        _dictionary: Option<&Vec<u8>>,
        _stream: StreamConfig,
    ) -> Result<(Inverted, usize), EncodeError> {
        if self.refuse {
            return Err(EncodeError::InternalInvariant { detail: "refused" });
        }
        Ok((Inverted, if self.limit == 0 { 4096 } else { self.limit }))
    }
}

fn config() -> FramingConfig {
    FramingConfig::default()
}

#[test]
fn footer_size_converges_across_varint_width_boundaries() {
    for offset in [0, 120, 127, 128, 16375, 16383, 16384, (1 << 56) - 10] {
        let content = footer(offset, 5).expect("footer");
        let mut reversed = content.clone();
        reversed.reverse();
        let (directory, used) = varint::read(&reversed).expect("directory");
        let (size, _) = varint::read(&reversed[used..]).expect("size");
        assert_eq!(directory, 5);
        let length = content.len() + 1;
        assert_eq!(
            size,
            offset + (length + varint::encoded_len(length as u64)) as u64
        );
    }
    assert!(matches!(
        footer(varint::MAX_VARINT, 0),
        Err(FramingError::Overflow)
    ));
    assert!(matches!(
        number(u64::MAX, &mut Vec::new()),
        Err(FramingError::Overflow)
    ));
}

#[test]
fn chunk_limits_and_offset_overflow_fail_without_queuing() {
    let mut container = Container::new(
        Collected::default(),
        FramingConfig {
            max_chunks: 0,
            ..Default::default()
        },
    )
    .ok()
    .expect("container");
    assert!(matches!(
        container.begin(),
        Err(FramingError::Limit("chunk count"))
    ));
    container.drain().expect("header");
    container.config.max_chunks = 1;
    container.offset = varint::MAX_VARINT;
    assert!(matches!(
        container.queue(vec![0], b"x", false),
        Err(FramingError::Overflow)
    ));
    assert!(container.pending.is_empty());
    assert_eq!(container.chunks, 0);
}

#[test]
fn numbers_read_back() {
    for value in [0u64, 1, 127, 128, 16383, 16384, 1 << 40, varint::MAX_VARINT] {
        let mut bytes = Vec::new();
        varint::write(value, &mut bytes).expect("fits");
        assert_eq!(bytes.len(), varint::encoded_len(value));
        bytes.push(99);
        assert_eq!(varint::read(&bytes), Some((value, bytes.len() - 1)));
    }
    assert_eq!(varint::read(&[0x80]), None);
}

/// The container of one stored resource `abc`.
const STORED: [u8; 25] = [
    0x91, 0x0a, 0x42, 0x52, 4, // opening
    6, 2, 0, 0, b'a', b'b', b'c', // the resource, whole and stored
    8, 9, 0, 5, 4, 6, 2, 0, 0, // the directory
    3, 10, 25, 12, // the footer
];

#[test]
fn a_stored_resource_is_framed_and_listed() {
    let mut compressor = Inverters::default();
    let mut writer = FramedWriter::new(&mut compressor, Collected::default(), config())
        .ok()
        .expect("container");
    assert_eq!(writer.next_chunk_offset(), 5);
    {
        let mut resource = writer
            .uncompressed_resource(ResourceOptions::default())
            .ok()
            .expect("resource");
        assert_eq!(resource.write(b"abc").ok(), Some(3));
        assert_eq!(resource.write(b"").ok(), Some(0));
        resource.try_finish().expect("finished");
        assert!(matches!(
            resource.write(b"d"),
            Err(FramingError::Invalid("resource is finished"))
        ));
        resource.try_finish().expect("still finished");
    }
    assert_eq!(writer.next_chunk_offset(), 12);
    writer.try_finish().expect("ended");
    writer.try_finish().expect("still ended");
    assert_eq!(writer.get_ref().bytes, STORED);
    let sink = writer.finish().ok().expect("sink");
    assert_eq!(sink.bytes, STORED);
}

#[test]
fn a_failing_sink_is_retried_without_repeating_bytes() {
    let mut compressor = Inverters::default();
    let mut writer = FramedWriter::new(
        &mut compressor,
        Collected {
            little: true,
            ..Default::default()
        },
        config(),
    )
    .ok()
    .expect("container");
    {
        let mut resource = writer
            .uncompressed_resource(ResourceOptions::default())
            .ok()
            .expect("resource");
        assert_eq!(resource.write(b"abc").ok(), Some(3));
        resource.get_mut().stuck = true;
        assert!(matches!(
            resource.try_finish(),
            Err(FramingError::Io(SinkError::Failed))
        ));
        resource.get_mut().stuck = false;
        resource.try_finish().expect("finished");
    }
    writer.get_mut().stuck = true;
    assert!(matches!(writer.try_finish(), Err(FramingError::Io(_))));
    writer.get_mut().stuck = false;
    writer.try_finish().expect("ended");
    assert_eq!(writer.into_inner().bytes, STORED);
}

#[test]
fn a_compressed_resource_carries_what_its_encoder_answered() {
    let mut compressor = Inverters {
        large: true,
        ..Default::default()
    };
    let plain = FramingConfig {
        central_directory: false,
        chunk_bytes: 4,
        ..config()
    };
    let mut writer = FramedWriter::new(&mut compressor, Collected::default(), plain)
        .ok()
        .expect("container");
    {
        let mut resource = writer
            .resource(
                ResourceOptions {
                    hidden: true,
                    id: Some(DictionaryId([7; 32])),
                },
                StreamConfig::default(),
            )
            .ok()
            .expect("resource");
        assert_eq!(resource.write(b"abcdef").ok(), Some(4));
        assert_eq!(resource.write(b"ef").ok(), Some(2));
        resource.try_finish().expect("finished");
    }
    writer.flush().expect("flushed");
    let bytes = &writer.get_ref().bytes;
    // The first part: kind 3, dictionary references, payload of four, hidden.
    assert_eq!(&bytes[5..11], &[9, 3, 3, 4, 0, 1]);
    assert_eq!(&bytes[11..15], &[!b'a', !b'b', !b'c', !b'd']);
    // The last part: kind 5, continued, payload of two, named.
    assert_eq!(&bytes[15..20], &[39, 5, 1, 2, 2]);
    assert_eq!(bytes[20], 3);
    assert_eq!(&bytes[21..53], &[7; 32]);
    assert_eq!(&bytes[53..], &[!b'e', !b'f']);
}

#[test]
fn a_resource_with_a_dictionary_names_it() {
    let mut compressor = Inverters::default();
    let mut writer = FramedWriter::new(&mut compressor, Collected::default(), config())
        .ok()
        .expect("container");
    let dictionary = vec![1, 2, 3];
    let none = writer.resource_with_dictionary(
        ResourceOptions::default(),
        StreamConfig::default(),
        &dictionary,
        &[],
    );
    assert!(matches!(
        none.err(),
        Some(FramingError::Invalid(
            "shared chunks require 1..=16 dictionary references"
        ))
    ));
    {
        let mut resource = writer
            .resource_with_dictionary(
                ResourceOptions::default(),
                StreamConfig::default(),
                &dictionary,
                &[DictionaryReference::PrefixId(DictionaryId([9; 32]))],
            )
            .ok()
            .expect("resource");
        resource.write(b"x").expect("taken");
        resource.flush().expect("flushed");
        resource.try_finish().expect("finished");
    }
    let bytes = &writer.get_ref().bytes;
    assert_eq!(bytes[6..9], [3, 3, 1]);
    assert_eq!(bytes[9], 1);
    assert!(bytes.windows(32).any(|part| part == [9; 32]));
}

#[test]
fn every_refusal_names_its_reason() {
    let refused = |config: FramingConfig| {
        Container::new(Collected::default(), config)
            .err()
            .expect("refused")
    };
    assert!(matches!(
        refused(FramingConfig {
            container: false,
            ..config()
        }),
        FramingError::Invalid(_)
    ));
    assert!(matches!(
        refused(FramingConfig {
            central_directory: false,
            repeat_metadata: true,
            ..config()
        }),
        FramingError::Invalid("repeat metadata requires a central directory")
    ));
    assert!(matches!(
        refused(FramingConfig {
            chunk_bytes: 0,
            ..config()
        }),
        FramingError::Limit(_)
    ));

    let mut compressor = Inverters {
        refuse: true,
        ..Default::default()
    };
    let mut writer = FramedWriter::new(&mut compressor, Collected::default(), config())
        .ok()
        .expect("container");
    let moved = StreamConfig::default().with_stream_offset(4);
    assert!(matches!(
        writer.resource(ResourceOptions::default(), moved).err(),
        Some(FramingError::Invalid(_))
    ));
    assert!(matches!(
        writer
            .resource(ResourceOptions::default(), StreamConfig::default())
            .err(),
        Some(FramingError::Encode(EncodeError::InternalInvariant { detail: "refused" }))
    ));
    let late = writer.metadata(
        MetadataKind::Footer,
        &[MetadataField {
            code: *b"AB",
            value: b"v",
        }],
    );
    assert!(matches!(
        late,
        Err(FramingError::Invalid("metadata is not adjacent to its resource"))
    ));
    let twice = [
        MetadataField {
            code: *b"id",
            value: b"a",
        },
        MetadataField {
            code: *b"id",
            value: b"b",
        },
    ];
    assert!(matches!(
        writer.metadata(MetadataKind::Resource, &twice),
        Err(FramingError::Invalid(
            "invalid or duplicate reserved metadata field"
        ))
    ));
    let broken = [MetadataField {
        code: *b"id",
        value: &[0xff, 0xfe],
    }];
    assert!(matches!(
        writer.metadata(MetadataKind::Resource, &broken),
        Err(FramingError::Invalid(
            "invalid or duplicate reserved metadata field"
        ))
    ));
    let named = [MetadataField {
        code: *b"id",
        value: "n\u{e4}me".as_bytes(),
    }];
    writer
        .metadata(MetadataKind::Resource, &named)
        .expect("metadata");
    assert!(matches!(
        writer.try_finish(),
        Err(FramingError::Invalid(
            "resource is missing, unfinished, or abandoned"
        ))
    ));
}

#[test]
fn metadata_is_repeated_before_the_directory() {
    let mut compressor = Inverters::default();
    let mut writer = FramedWriter::new(
        &mut compressor,
        Collected::default(),
        FramingConfig {
            repeat_metadata: true,
            ..config()
        },
    )
    .ok()
    .expect("container");
    writer
        .metadata(
            MetadataKind::Resource,
            &[MetadataField {
                code: *b"XY",
                value: b"vw",
            }],
        )
        .expect("metadata");
    {
        let mut resource = writer
            .uncompressed_resource(ResourceOptions::default())
            .ok()
            .expect("resource");
        resource.write(b"a").expect("taken");
        resource.try_finish().expect("finished");
    }
    writer.try_finish().expect("ended");
    let bytes = &writer.get_ref().bytes;
    // Metadata: kind 1, stored, the field's code, length and value.
    assert_eq!(&bytes[5..13], &[7, 1, 0, b'X', b'Y', 2, b'v', b'w']);
    assert_eq!(&bytes[13..18], &[4, 2, 0, 0, b'a']);
    // Its repetition says what it repeats.
    assert_eq!(&bytes[18..27], &[8, 8, 0, 1, b'X', b'Y', 2, b'v', b'w']);
    // The directory points at the repetition.
    assert_eq!(bytes[28], 9);
    assert_eq!(bytes[29], 18);
    // The footer states how long the stream is.
    assert_eq!(bytes[bytes.len() - 2] as usize, bytes.len());
    assert_eq!(bytes[bytes.len() - 1], 27);
}

#[test]
fn a_pulled_container_is_the_written_one() {
    let mut compressor = Inverters::default();
    let mut session = FramedEncoderSession::new(&mut compressor, config())
        .ok()
        .expect("session");
    assert!(matches!(
        session.padding(3),
        Err(FramedEncodeError::OutputPending)
    ));
    let mut wire = Vec::new();
    let mut output = [0u8; 4];
    loop {
        let progress = session
            .process(&mut output, FramedEncodeOperation::Process)
            .expect("opening");
        wire.extend_from_slice(&output[..progress.produced]);
        if progress.status == FramedEncoderStatus::NeedsInput {
            break;
        }
    }
    assert_eq!(session.total_out(), 5);
    {
        let mut resource = session
            .uncompressed_resource(ResourceOptions::default())
            .ok()
            .expect("resource");
        let mut input = &b"abc"[..];
        loop {
            let progress = resource
                .process(input, &mut output, Operation::Finish)
                .expect("payload");
            input = &input[progress.consumed..];
            wire.extend_from_slice(&output[..progress.produced]);
            if progress.status == FramedEncoderStatus::Finished {
                break;
            }
        }
        assert!(resource.is_finished());
        assert_eq!(resource.total_in(), 3);
        assert_eq!(resource.total_out(), 7);
    }
    assert_eq!(session.resources_encoded(), 1);
    assert_eq!(session.total_in(), 3);
    assert_eq!(session.next_chunk_offset(), 12);
    loop {
        let progress = session
            .process(&mut output, FramedEncodeOperation::Finish)
            .expect("end");
        wire.extend_from_slice(&output[..progress.produced]);
        if progress.status == FramedEncoderStatus::Finished {
            break;
        }
    }
    assert!(session.is_finished());
    assert_eq!(session.total_out(), 25);
    assert_eq!(wire, STORED);
}

#[test]
fn a_failed_container_stays_failed() {
    let mut compressor = Inverters {
        limit: 1,
        ..Default::default()
    };
    let mut session = FramedEncoderSession::new(&mut compressor, config())
        .ok()
        .expect("session");
    let mut output = [0u8; 64];
    session
        .process(&mut output, FramedEncodeOperation::Process)
        .expect("opening");
    // An encoder that takes one byte at a time is not used.
    assert!(matches!(
        session
            .resource(ResourceOptions::default(), StreamConfig::default())
            .err(),
        Some(FramedEncodeError::Framing(FramingError::Encode(
            EncodeError::InternalInvariant { .. }
        )))
    ));
    session
        .metadata(
            MetadataKind::Resource,
            &[MetadataField {
                code: *b"AB",
                value: b"",
            }],
        )
        .expect("metadata");
    let failure = session
        .process(&mut output, FramedEncodeOperation::Finish)
        .err()
        .expect("metadata without its resource");
    assert!(matches!(failure.error, FramedEncodeError::Framing(_)));
    let failure = session
        .process(&mut output, FramedEncodeOperation::Process)
        .err()
        .expect("failed for good");
    assert!(matches!(failure.error, FramedEncodeError::InvalidState));
    assert!(matches!(
        session.padding(0),
        Err(FramedEncodeError::InvalidState)
    ));
}

#[test]
fn a_sink_that_takes_nothing_or_too_much_has_failed() {
    assert_eq!(check_write(4, Ok(4)).ok(), Some(4));
    assert_eq!(check_write(4, Ok(1)).ok(), Some(1));
    assert!(matches!(
        check_write(4, Ok(0)),
        Err(FramingError::Io(SinkError::WriteZero))
    ));
    assert!(matches!(
        check_write(4, Ok(5)),
        Err(FramingError::Io(SinkError::Oversized))
    ));
    assert!(matches!(
        check_write(4, Err(SinkError::Failed)),
        Err(FramingError::Io(SinkError::Failed))
    ));
}

#[test]
fn a_vector_holds_each_byte_of_a_finished_container_once() {
    let mut compressor = Inverters::default();
    let mut writer = FramedWriter::new(&mut compressor, Vec::<u8>::new(), config())
        .ok()
        .expect("container");
    writer.try_finish().expect("ended");
    writer.try_finish().expect("still ended");
    assert_eq!(
        writer.get_ref(),
        &[0x91, 0x0a, 0x42, 0x52, 4, 2, 9, 0, 3, 10, 12, 5]
    );
}

#[test]
fn a_vector_holds_each_byte_of_a_finished_resource_once() {
    let mut compressor = Inverters::default();
    let mut writer = FramedWriter::new(&mut compressor, Vec::<u8>::new(), config())
        .ok()
        .expect("container");
    {
        let mut resource = writer
            .uncompressed_resource(ResourceOptions::default())
            .ok()
            .expect("resource");
        assert_eq!(resource.write(b"hi").ok(), Some(2));
        resource.try_finish().expect("finished");
        resource.try_finish().expect("still finished");
    }
    assert_eq!(
        writer.get_ref(),
        &[0x91, 0x0a, 0x42, 0x52, 4, 5, 2, 0, 0, 0x68, 0x69]
    );
}

#[test]
fn refused_padding_leaves_every_counter() {
    let mut compressor = Inverters::default();
    let mut session = FramedEncoderSession::new(
        &mut compressor,
        FramingConfig {
            max_chunks: 0,
            ..config()
        },
    )
    .ok()
    .expect("session");
    let mut output = [0u8; 64];
    session
        .process(&mut output, FramedEncodeOperation::Process)
        .expect("header");
    let before = (
        session.total_in(),
        session.total_out(),
        session.resources_encoded(),
        session.next_chunk_offset(),
    );
    assert!(session.padding(3).is_err());
    let after = (
        session.total_in(),
        session.total_out(),
        session.resources_encoded(),
        session.next_chunk_offset(),
    );
    assert_eq!(before, after);
}

#[test]
fn a_fresh_container_has_handed_nothing_out() {
    let mut compressor = Inverters::default();
    let session = FramedEncoderSession::new(&mut compressor, config())
        .ok()
        .expect("session");
    assert_eq!(session.total_in(), 0);
    assert_eq!(session.total_out(), 0);
    assert_eq!(session.resources_encoded(), 0);
    assert_eq!(session.next_chunk_offset(), 5);
    assert!(!session.is_finished());

    let container = Container::new(Vec::<u8>::new(), config()).ok().expect("container");
    assert_eq!(container.offset(), 5);
    assert!(container.check_delivered(0).is_ok());
    assert!(matches!(
        container.check_delivered(usize::MAX),
        Err(FramingError::Limit("retained framing bytes"))
    ));
}

#[test]
fn a_container_without_a_directory_ends_sooner() {
    let mut compressor = Inverters::default();
    let mut writer = FramedWriter::new(
        &mut compressor,
        Vec::<u8>::new(),
        FramingConfig {
            central_directory: false,
            ..config()
        },
    )
    .ok()
    .expect("container");
    writer.try_finish().expect("ended");
    assert_eq!(writer.get_ref().len(), 9);
    assert_eq!(&writer.get_ref()[..5], &[0x91, 0x0a, 0x42, 0x52, 4]);
}

#[test]
fn metadata_and_padding_reach_a_vector_in_order() {
    let mut compressor = Inverters::default();
    let mut writer = FramedWriter::new(&mut compressor, Vec::<u8>::new(), config())
        .ok()
        .expect("container");
    let fields = [MetadataField {
        code: *b"AB",
        value: b"v",
    }];
    writer
        .metadata(MetadataKind::Global, &fields)
        .expect("metadata is queued");
    let before = writer.next_chunk_offset();
    assert!(before > 5);
    // What was queued before goes out first.
    writer.padding(3).expect("padding is queued");
    assert_eq!(writer.get_ref().len() as u64, before);
    assert!(writer.next_chunk_offset() > before);
    writer.flush().expect("flushed");
    assert_eq!(writer.get_ref().len() as u64, writer.next_chunk_offset());
    assert_eq!(&writer.get_ref()[writer.get_ref().len() - 4..], &[0; 4]);
}

#[test]
fn a_full_chunk_is_sealed_once_more_follows() {
    let mut compressor = Inverters::default();
    let mut writer = FramedWriter::new(
        &mut compressor,
        Vec::<u8>::new(),
        FramingConfig {
            chunk_bytes: 4,
            ..config()
        },
    )
    .ok()
    .expect("container");
    {
        let mut resource = writer
            .uncompressed_resource(ResourceOptions::default())
            .ok()
            .expect("resource");
        assert_eq!(resource.write(b"abcdef").ok(), Some(4));
        assert_eq!(resource.get_mut().len(), 5);
        assert_eq!(resource.write(b"ef").ok(), Some(2));
        let held = resource.get_mut().clone();
        assert_eq!(&held[held.len() - 4..], b"abcd");
        // A flush seals what is there, so an empty chunk ends the resource.
        resource.flush().expect("flushed");
        let held = resource.get_mut().clone();
        assert_eq!(&held[held.len() - 2..], b"ef");
        resource.try_finish().expect("finished");
        assert!(resource.get_mut().len() > held.len());
    }
}

#[test]
fn starting_a_resource_hands_nothing_out() {
    let mut compressor = Inverters {
        refuse: true,
        ..Default::default()
    };
    let mut session = FramedEncoderSession::new(&mut compressor, config())
        .ok()
        .expect("session");
    let mut output = [7u8; 16];
    let progress = session
        .process(&mut output, FramedEncodeOperation::Process)
        .expect("opening");
    assert_eq!(progress.produced, 5);
    // What lies past the bytes that were handed out stays as it was.
    assert_eq!(&output[5..], &[7; 11]);
    assert!(session
        .resource(ResourceOptions::default(), StreamConfig::default())
        .is_err());
    assert_eq!(session.total_out(), 5);
    assert_eq!(session.resources_encoded(), 0);
    assert!(session.uncompressed_resource(ResourceOptions::default()).is_ok());
    assert_eq!(session.total_out(), 5);
    assert_eq!(session.resources_encoded(), 0);
}

#[test]
fn a_footer_past_the_limit_is_refused() {
    for (offset, directory) in [
        (varint::MAX_VARINT + 1, 0),
        (u64::MAX, 0),
        (0, varint::MAX_VARINT + 1),
        (0, u64::MAX),
    ] {
        assert!(matches!(
            footer(offset, directory),
            Err(FramingError::Overflow)
        ));
    }
}

#[test]
fn a_resource_is_accepted_once_output_was_taken() {
    let mut compressor = Inverters::default();
    let mut session = FramedEncoderSession::new(&mut compressor, config())
        .ok()
        .expect("session");
    assert!(matches!(
        session
            .resource(ResourceOptions::default(), StreamConfig::default())
            .err(),
        Some(FramedEncodeError::OutputPending)
    ));
    assert_eq!(session.resources_encoded(), 0);
    assert_eq!(session.next_chunk_offset(), 5);
    let mut output = [0u8; 2];
    loop {
        let progress = session
            .process(&mut output, FramedEncodeOperation::Process)
            .expect("opening");
        if progress.status == FramedEncoderStatus::NeedsInput {
            break;
        }
    }
    assert!(session
        .resource(ResourceOptions::default(), StreamConfig::default())
        .is_ok());
}
