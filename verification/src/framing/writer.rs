//! A container written to a sink, resource by resource.
use vstd::prelude::*;

use crate::framing::container;
use crate::framing::container::Container;
use crate::framing::resource::Resource;
use crate::framing::types::{
    DictionaryReference, FramingConfig, FramingError, FramingFinishError, MetadataField,
    MetadataKind, ResourceOptions, Sink,
};
use crate::session::{EncodeError, EncoderSession, Phase, StreamConfig, StreamEncoder};

verus! {

/// What compresses resources.
///
/// A kind of it says nothing but which answers it can give.
pub trait Encoders: Sized {
    /// The encoder of one resource.
    type Encoder: StreamEncoder;

    /// A dictionary a resource may be compressed with.
    type Dictionary;

    /// It can say whether streams have the header of a large window.
    open spec fn widens(large: bool) -> bool {
        arbitrary()
    }

    /// It can hand out an encoder for a stream so, or refuse.
    open spec fn starts(
        dictionary: Option<Self::Dictionary>,
        stream: StreamConfig,
        started: Result<(Self::Encoder, usize), EncodeError>,
    ) -> bool {
        arbitrary()
    }

    /// Says whether streams have the header of a large window.
    fn is_large_window(&self) -> (large: bool)
        ensures
            Self::widens(large),
    ;

    /// Hands out an encoder for a stream, and how much input one call of it takes.
    fn start(
        &mut self,
        dictionary: Option<&Self::Dictionary>,
        stream: StreamConfig,
    ) -> (started: Result<(Self::Encoder, usize), EncodeError>)
        ensures
            Self::starts(
                match dictionary {
                    Some(held) => Some(*held),
                    None => None,
                },
                stream,
                started,
            ),
    ;
}

/// What was asked of the encoders for a resource, and what they said.
pub struct Asked<C: Encoders> {
    /// The dictionary, if there is one.
    pub dictionary: Option<C::Dictionary>,
    /// The stream.
    pub stream: StreamConfig,
    /// Whether the stream has the header of a large window; not asked where a
    /// dictionary has to be named anyway.
    pub large: bool,
    /// The encoder, and how much input one call of it takes.
    pub started: Result<(C::Encoder, usize), EncodeError>,
}

/// A container borrowing what compresses its resources.
pub struct FramedWriter<'c, W, C: Encoders> {
    /// What compresses the resources.
    pub compressor: &'c mut C,
    /// The container.
    pub core: Container<W>,
    /// What was asked for the resources so far.
    pub asked: Ghost<Seq<Asked<C>>>,
}

/// One resource of a container.
pub struct ResourceWriter<'a, W, E> {
    /// The resource.
    pub inner: Resource<'a, W, E>,
}

impl<'a, W: Sink, E: StreamEncoder> ResourceWriter<'a, W, E> {
    /// The resource has no payload yet; everything before it is on its way, and its
    /// container is otherwise as it was.
    pub open spec fn begins(&self, before: &Container<W>) -> bool {
        &&& self.inner.taken@.len() == 0
        &&& self.inner.input@.len() == 0
        &&& self.inner.chunks@.len() == 0
        &&& self.inner.first && !self.inner.finished && !self.inner.failed
        &&& self.inner.core.wire() == before.wire()
        &&& self.inner.core.pending@.len() == 0
        &&& self.inner.core.passes_on(before)
        &&& *self.inner.core == (Container {
            writer: self.inner.core.writer,
            pending: self.inner.core.pending,
            cursor: self.inner.core.cursor,
            sent: self.inner.core.sent,
            active: true,
            after_resource: false,
            metadata_pending: false,
            ..*before
        })
    }
}

/// Why a compressed resource cannot be started before a sink is asked, if it cannot.
pub open spec fn refuses_stream<W: Sink>(core: Container<W>, stream: StreamConfig) -> Option<FramingError> {
    if stream.offset != 0 {
        Some(
            FramingError::Invalid(
                "a new resource requires a stream header; its offset must be zero",
            ),
        )
    } else {
        core.refuses_resource()
    }
}

/// Why a resource with a dictionary cannot be started before a sink is asked, if it cannot.
pub open spec fn refuses_dictionary<W: Sink>(
    core: Container<W>,
    stream: StreamConfig,
    references: Seq<DictionaryReference>,
) -> Option<FramingError> {
    if stream.offset == 0 && core.refuses_list(references) is Some {
        core.refuses_list(references)
    } else {
        refuses_stream(core, stream)
    }
}

/// One more encoder was asked for.
pub open spec fn has_asked<C: Encoders>(
    before: Seq<Asked<C>>,
    after: Seq<Asked<C>>,
    dictionary: Option<C::Dictionary>,
    stream: StreamConfig,
) -> bool {
    &&& after.len() == before.len() + 1
    &&& after.drop_last() == before
    &&& after.last().dictionary == dictionary
    &&& after.last().stream == stream
    &&& C::starts(dictionary, stream, after.last().started)
    &&& if dictionary is Some {
        !after.last().large
    } else {
        C::widens(after.last().large)
    }
}

/// Asks for an encoder of a stream, and, unless there is a dictionary, whether the
/// stream has the header of a large window.
pub(crate) fn ask_for_encoder<C: Encoders>(
    compressor: &mut C,
    asked: &mut Ghost<Seq<Asked<C>>>,
    dictionary: Option<&C::Dictionary>,
    stream: StreamConfig,
) -> (reply: (bool, Result<(C::Encoder, usize), EncodeError>))
    ensures
        has_asked(
            old(asked)@,
            final(asked)@,
            match dictionary {
                Some(held) => Some(*held),
                None => None,
            },
            stream,
        ),
        final(asked)@.last().large == reply.0,
        final(asked)@.last().started == reply.1,
{
    let large: bool = match dictionary {
        Some(_) => false,
        None => compressor.is_large_window(),
    };
    let started = compressor.start(dictionary, stream);
    let ghost record = Asked {
        dictionary: match dictionary {
            Some(held) => Some(*held),
            None => None,
        },
        stream,
        large,
        started,
    };
    assert(asked@.push(record).drop_last() =~= asked@);
    *asked = Ghost(asked@.push(record));
    (large, started)
}

/// Why a stream cannot begin with what an encoder was started with, if it cannot.
pub open spec fn refuses_start<E>(started: Result<(E, usize), EncodeError>) -> Option<FramingError> {
    match started {
        Err(error) => Some(FramingError::Encode(error)),
        Ok((_, limit)) => if limit < 2 {
            Some(
                FramingError::Encode(
                    EncodeError::InternalInvariant {
                        detail: "an encoder takes fewer than two bytes at a time",
                    },
                ),
            )
        } else {
            None
        },
    }
}

/// Begins a stream with what an encoder was started with.
///
/// An encoder that takes fewer than two bytes at a time is not used.
pub fn begin_stream<E: StreamEncoder>(started: Result<(E, usize), EncodeError>, stream: StreamConfig) -> (result: Result<
    EncoderSession<E>,
    FramingError,
>)
    requires
        stream.offset == 0,
    ensures
        match refuses_start(started) {
            Some(error) => result == Err::<EncoderSession<E>, _>(error),
            None => {
                &&& result is Ok
                &&& result->Ok_0.wf()
                &&& result->Ok_0.is_fresh((started->Ok_0).0, (started->Ok_0).1, stream)
            },
        },
{
    match started {
        Err(error) => Err(FramingError::Encode(error)),
        Ok((encoder, limit)) => {
            if limit < 2 {
                return Err(
                    FramingError::Encode(
                        EncodeError::InternalInvariant {
                            detail: "an encoder takes fewer than two bytes at a time",
                        },
                    ),
                );
            }
            Ok(EncoderSession::new(encoder, limit, stream))
        },
    }
}

impl<'c, W, C: Encoders> FramedWriter<'c, W, C> {
    /// The container is as it should be.
    pub open spec fn wf(&self) -> bool {
        self.core.wf()
    }

    /// Starts a container; its opening is only queued.
    pub fn new(compressor: &'c mut C, writer: W, config: FramingConfig) -> (result: Result<
        Self,
        FramingError,
    >)
        ensures
            match container::refused_config(config) {
                Some(error) => result is Err && result->Err_0 == error,
                None => result is Ok && result->Ok_0.wf() && result->Ok_0.core.is_fresh(
                    writer,
                    config,
                ) && result->Ok_0.asked@.len() == 0 && *result->Ok_0.compressor == *old(compressor)
                    && *final(result->Ok_0.compressor) == *final(compressor),
            },
    {
        match Container::new(writer, config) {
            Err(error) => Err(error),
            Ok(core) => Ok(FramedWriter { compressor, core, asked: Ghost(Seq::empty()) }),
        }
    }

    /// Borrows the sink.
    pub fn get_ref(&self) -> (sink: &W)
        ensures
            *sink == self.core.writer,
    {
        &self.core.writer
    }

    /// Borrows the sink, to repair it.
    pub fn get_mut(&mut self) -> (sink: &mut W)
        ensures
            *sink == old(self).core.writer,
            final(self).core == (Container { writer: *final(sink), ..old(self).core }),
            final(self).asked == old(self).asked,
            *final(self).compressor == *old(self).compressor,
            *final(final(self).compressor) == *final(old(self).compressor),
    {
        &mut self.core.writer
    }

    /// Returns where the next chunk will start.
    pub fn next_chunk_offset(&self) -> (offset: u64)
        requires
            self.wf(),
        ensures
            offset == self.core.wire().len(),
    {
        self.core.offset()
    }

    /// Abandons the container and returns the sink.
    pub fn into_inner(self) -> (sink: W)
        ensures
            sink == self.core.writer,
    {
        self.core.writer
    }
}

impl<'c, W: Sink, C: Encoders> FramedWriter<'c, W, C> {
    /// Nothing was asked; the sink failed.
    pub open spec fn sink_failed<R>(&self, before: &Self, result: Result<R, FramingError>) -> bool {
        &&& self.asked == before.asked
        &&& self.core.sink_stopped(&before.core, result)
    }

    /// Starts a compressed resource.
    ///
    /// It must be a whole stream: one that continues another has no header.
    pub fn resource(&mut self, options: ResourceOptions, stream: StreamConfig) -> (result: Result<
        ResourceWriter<'_, W, C::Encoder>,
        FramingError,
    >)
        requires
            old(self).wf(),
        ensures
            final(self).asked@.len() == old(self).asked@.len() ==> *final(self).compressor
                == *old(self).compressor,
            *final(final(self).compressor) == *final(old(self).compressor),
            refuses_stream(old(self).core, stream) matches Some(error) ==> result is Err && result->Err_0
                == error && final(self).core == old(self).core && final(self).asked
                == old(self).asked,
            refuses_stream(old(self).core, stream) is None ==> final(self).sink_failed(old(self), result)
                || has_asked(old(self).asked@, final(self).asked@, None, stream) && (match refuses_start(
                final(self).asked@.last().started,
            ) {
                Some(error) => result is Err && result->Err_0 == error,
                None => result is Ok,
            }),
            result is Err ==> final(self).wf() && final(self).core.passes_on(&old(self).core)
                && final(self).core.wire() == old(self).core.wire() && final(self).core.only_drained(
                &old(self).core,
            ),
            result matches Ok(resource) ==> {
                let asked = final(self).asked@.last();
                &&& resource.inner.wf()
                &&& resource.inner.session is Some
                &&& resource.inner.session->0.is_fresh(
                    (asked.started->Ok_0).0,
                    (asked.started->Ok_0).1,
                    stream,
                )
                &&& resource.inner.options == options
                &&& resource.inner.references@ == if asked.large {
                    seq![0u8]
                } else {
                    Seq::empty()
                }
                &&& resource.begins(&old(self).core)
                &&& final(self).core == *final(resource.inner.core)
            },
    {
        proof {
            Container::lemma_stayed(&old(self).core, &self.core);
        }
        if stream.stream_offset() != 0 {
            return Err(
                FramingError::Invalid(
                    "a new resource requires a stream header; its offset must be zero",
                ),
            );
        }
        match self.core.begin() {
            Err(error) => return Err(error),
            Ok(_) => {},
        }
        let ghost begun = self.core;
        let (large, started) = ask_for_encoder(self.compressor, &mut self.asked, None, stream);
        let mut references: Vec<u8> = Vec::new();
        if large {
            references.push(0);
        }
        assert(references@ =~= if large {
            seq![0u8]
        } else {
            Seq::empty()
        });
        match begin_stream(started, stream) {
            Err(error) => Err(error),
            Ok(session) => {
                let inner = Resource::new(&mut self.core, Some(session), options, references);
                proof {
                    Container::lemma_stayed(&begun, inner.core);
                    Container::lemma_passed_on(&old(self).core, &begun, inner.core);
                }
                Ok(ResourceWriter { inner })
            },
        }
    }

    /// Starts a resource compressed with a dictionary.
    pub fn resource_with_dictionary(
        &mut self,
        options: ResourceOptions,
        stream: StreamConfig,
        dictionary: &C::Dictionary,
        references: &[DictionaryReference],
    ) -> (result: Result<ResourceWriter<'_, W, C::Encoder>, FramingError>)
        requires
            old(self).wf(),
        ensures
            final(self).asked@.len() == old(self).asked@.len() ==> *final(self).compressor
                == *old(self).compressor,
            *final(final(self).compressor) == *final(old(self).compressor),
            refuses_dictionary(old(self).core, stream, references@) matches Some(error) ==> result is Err
                && result->Err_0 == error && final(self).core == old(self).core
                && final(self).asked == old(self).asked,
            refuses_dictionary(old(self).core, stream, references@) is None ==> final(self).sink_failed(
                old(self),
                result,
            ) || has_asked(old(self).asked@, final(self).asked@, Some(*dictionary), stream) && (
            match refuses_start(final(self).asked@.last().started) {
                Some(error) => result is Err && result->Err_0 == error,
                None => result is Ok,
            }),
            result is Err ==> final(self).wf() && final(self).core.passes_on(&old(self).core)
                && final(self).core.wire() == old(self).core.wire() && final(self).core.only_drained(
                &old(self).core,
            ),
            result matches Ok(resource) ==> {
                let asked = final(self).asked@.last();
                &&& resource.inner.wf()
                &&& resource.inner.session is Some
                &&& resource.inner.session->0.is_fresh(
                    (asked.started->Ok_0).0,
                    (asked.started->Ok_0).1,
                    stream,
                )
                &&& resource.inner.options == options
                &&& resource.inner.references@ == seq![references@.len() as u8]
                    + container::listed_references(references@)
                &&& resource.begins(&old(self).core)
                &&& final(self).core == *final(resource.inner.core)
            },
    {
        proof {
            Container::lemma_stayed(&old(self).core, &self.core);
        }
        if stream.stream_offset() != 0 {
            return Err(
                FramingError::Invalid(
                    "a new resource requires a stream header; its offset must be zero",
                ),
            );
        }
        let encoded: Vec<u8> = match self.core.references(references) {
            Err(error) => return Err(error),
            Ok(encoded) => encoded,
        };
        match self.core.begin() {
            Err(error) => return Err(error),
            Ok(_) => {},
        }
        let ghost begun = self.core;
        let (_, started) = ask_for_encoder(
            self.compressor,
            &mut self.asked,
            Some(dictionary),
            stream,
        );
        match begin_stream(started, stream) {
            Err(error) => Err(error),
            Ok(session) => {
                let inner = Resource::new(&mut self.core, Some(session), options, encoded);
                proof {
                    Container::lemma_stayed(&begun, inner.core);
                    Container::lemma_passed_on(&old(self).core, &begun, inner.core);
                }
                Ok(ResourceWriter { inner })
            },
        }
    }

    /// Starts a resource that is stored as it is.
    pub fn uncompressed_resource(&mut self, options: ResourceOptions) -> (result: Result<
        ResourceWriter<'_, W, C::Encoder>,
        FramingError,
    >)
        requires
            old(self).wf(),
        ensures
            final(self).asked@.len() == old(self).asked@.len() ==> *final(self).compressor
                == *old(self).compressor,
            *final(final(self).compressor) == *final(old(self).compressor),
            final(self).asked == old(self).asked,
            match old(self).core.refuses_resource() {
                Some(error) => result is Err && result->Err_0 == error && final(self).core
                    == old(self).core,
                None => result is Ok || final(self).sink_failed(old(self), result),
            },
            result is Err ==> final(self).wf() && final(self).core.passes_on(&old(self).core)
                && final(self).core.wire() == old(self).core.wire() && final(self).core.only_drained(
                &old(self).core,
            ),
            result matches Ok(resource) ==> {
                &&& resource.inner.wf()
                &&& resource.inner.session is None
                &&& resource.inner.options == options
                &&& resource.inner.references@.len() == 0
                &&& resource.begins(&old(self).core)
                &&& final(self).core == *final(resource.inner.core)
            },
    {
        proof {
            Container::lemma_stayed(&old(self).core, &self.core);
        }
        match self.core.begin() {
            Err(error) => return Err(error),
            Ok(_) => {},
        }
        let ghost begun = self.core;
        let inner = Resource::new(&mut self.core, None, options, Vec::new());
        proof {
            Container::lemma_stayed(&begun, inner.core);
            Container::lemma_passed_on(&old(self).core, &begun, inner.core);
        }
        Ok(ResourceWriter { inner })
    }

    /// Queues metadata.
    pub fn metadata(&mut self, kind: MetadataKind, fields: &[MetadataField]) -> (result: Result<
        (),
        FramingError,
    >)
        requires
            old(self).wf(),
        ensures
            final(self).core.queues_metadata(&old(self).core, kind, fields@, result),
            final(self).asked == old(self).asked,
            *final(self).compressor == *old(self).compressor,
            *final(final(self).compressor) == *final(old(self).compressor),
    {
        self.core.metadata(kind, fields)
    }

    /// Queues a chunk of zeros.
    pub fn padding(&mut self, bytes: usize) -> (result: Result<(), FramingError>)
        requires
            old(self).wf(),
        ensures
            final(self).core.queues_padding(&old(self).core, bytes, result),
            final(self).asked == old(self).asked,
            *final(self).compressor == *old(self).compressor,
            *final(final(self).compressor) == *final(old(self).compressor),
    {
        self.core.padding(bytes)
    }

    /// Passes everything queued on.
    pub fn flush(&mut self) -> (result: Result<(), FramingError>)
        requires
            old(self).wf(),
        ensures
            final(self).wf(),
            final(self).core.only_drained(&old(self).core),
            final(self).core.passes_on(&old(self).core),
            final(self).core.wire() == old(self).core.wire(),
            final(self).asked == old(self).asked,
            *final(self).compressor == *old(self).compressor,
            *final(final(self).compressor) == *final(old(self).compressor),
            match result {
                Ok(_) => final(self).core.pending@.len() == 0 && final(self).core.sent@
                    == old(self).core.wire() && W::flushes(Ok(())),
                Err(error) => error is Io && !old(self).core.writer.obliges() && (
                final(self).core.sink_said(error->Io_0) || W::flushes(Err(error->Io_0))),
            },
    {
        match self.core.drain() {
            Err(error) => return Err(error),
            Ok(_) => {},
        }
        let ghost held = self.core;
        let flushed = self.core.writer.flush();
        proof {
            assert(self.core.sent@.skip(held.sent@.len() as int) =~= Seq::empty());
            assert(held.writer.taken() + Seq::<u8>::empty() =~= held.writer.taken());
            assert(self.core.sent@.take(held.sent@.len() as int) =~= held.sent@);
            Container::lemma_passed_on(&old(self).core, &held, &self.core);
        }
        match flushed {
            Err(error) => Err(FramingError::Io(error)),
            Ok(done) => {
                assert(done == ());
                Ok(())
            },
        }
    }

    /// Ends the container. A failed call can be repeated.
    pub fn try_finish(&mut self) -> (result: Result<(), FramingError>)
        requires
            old(self).wf(),
        ensures
            final(self).core.ends(&old(self).core, result),
            final(self).asked == old(self).asked,
            *final(self).compressor == *old(self).compressor,
            *final(final(self).compressor) == *final(old(self).compressor),
    {
        self.core.finish()
    }

    /// Ends the container and returns the sink, or gives the writer back.
    pub fn finish(self) -> (result: Result<W, Box<FramingFinishError<Self>>>)
        requires
            self.wf(),
        ensures
            match result {
                Ok(sink) => exists|core: Container<W>|
                    #[trigger] core.ends(&self.core, Ok(())) && core.writer == sink,
                Err(refused) => refused.writer.core.ends(&self.core, Err(refused.error))
                    && refused.writer.asked == self.asked,
            },
    {
        let mut writer = self;
        match writer.try_finish() {
            Ok(_) => {
                assert(writer.core.ends(&self.core, Ok(())));
                Ok(writer.core.writer)
            },
            Err(error) => Err(Box::new(FramingFinishError { writer, error })),
        }
    }
}

impl<'a, W: Sink, E: StreamEncoder> ResourceWriter<'a, W, E> {
    /// Ends the resource and passes its last chunk on. Can be repeated when the
    /// sink failed.
    pub fn try_finish(&mut self) -> (result: Result<(), FramingError>)
        requires
            old(self).inner.wf(),
        ensures
            final(self).inner.ends(&old(self).inner, result),
            *final(final(self).inner.core) == *final(old(self).inner.core),
    {
        self.inner.try_finish()
    }

    /// Borrows the sink, to repair it.
    pub fn get_mut(&mut self) -> (sink: &mut W)
        ensures
            *sink == old(self).inner.core.writer,
            *final(self).inner.core == (Container { writer: *final(sink), ..*old(self).inner.core }),
            final(self).inner.unchanged(&old(self).inner),
            *final(final(self).inner.core) == *final(old(self).inner.core),
    {
        self.inner.get_mut()
    }

    /// Takes payload and returns how much.
    pub fn write(&mut self, input: &[u8]) -> (result: Result<usize, FramingError>)
        requires
            old(self).inner.wf(),
        ensures
            final(self).inner.takes(&old(self).inner, input@, result),
            *final(final(self).inner.core) == *final(old(self).inner.core),
    {
        self.inner.write(input)
    }

    /// Emits what was gathered and passes everything on.
    pub fn flush(&mut self) -> (result: Result<(), FramingError>)
        requires
            old(self).inner.wf(),
        ensures
            final(self).inner.flushes(&old(self).inner, result),
            *final(final(self).inner.core) == *final(old(self).inner.core),
    {
        self.inner.flush()
    }
}

} // verus!
