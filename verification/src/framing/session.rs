//! A container whose bytes are handed out instead of passed on.
use vstd::prelude::*;

use crate::framing::container;
use crate::framing::container::Container;
use crate::framing::resource::{Chunk, Resource};
use crate::framing::types::{
    DictionaryReference, FramingConfig, FramingError, MetadataField, MetadataKind, ResourceOptions,
    Sink, SinkError,
};
use crate::framing::writer;
use crate::framing::writer::{ask_for_encoder, begin_stream, Asked, Encoders};
use crate::session::{Operation, StreamConfig, StreamEncoder};

verus! {

/// What a call should do with the container.
#[derive(Copy, Clone, Debug, PartialEq, Eq, Structural)]
pub enum FramedEncodeOperation {
    /// Hand out what is queued and keep the container open.
    Process,
    /// Hand out everything up to the end of the container.
    Finish,
}

impl Default for FramedEncodeOperation {
    /// Keeps the container open.
    fn default() -> (operation: Self)
        ensures
            operation == FramedEncodeOperation::Process,
    {
        FramedEncodeOperation::Process
    }
}

/// What a container or resource needs next.
#[derive(Copy, Clone, Debug, PartialEq, Eq, Structural)]
pub enum FramedEncoderStatus {
    /// Nothing is queued; more payload or another command may come.
    NeedsInput,
    /// Queued bytes need room.
    NeedsOutput,
    /// Everything was encoded and handed out.
    Finished,
}

/// What one call did.
#[derive(Copy, Clone, Debug, PartialEq, Eq, Structural)]
pub struct FramedEncodeProgress {
    /// How much payload was taken.
    pub consumed: usize,
    /// How much of the output was filled.
    pub produced: usize,
    /// What is needed next.
    pub status: FramedEncoderStatus,
}

/// Why a call did nothing.
#[derive(Copy, Clone, Debug)]
pub enum FramedEncodeError {
    /// Queued bytes have to be taken first.
    OutputPending,
    /// The container has already failed.
    InvalidState,
    /// The container refused.
    Framing(FramingError),
}

/// Why a call stopped, and how far it came.
#[derive(Copy, Clone, Debug)]
pub struct FramedEncodeFailure {
    /// Why it stopped.
    pub error: FramedEncodeError,
    /// How much payload was taken.
    pub consumed: usize,
    /// How much of the output was filled.
    pub produced: usize,
}

/// No sink: the bytes of the container are taken out of it.
pub struct Pulled;

impl Sink for Pulled {
    open spec fn shows(&self) -> bool {
        true
    }

    open spec fn taken(&self) -> Seq<u8> {
        Seq::empty()
    }

    open spec fn obliges(&self) -> bool {
        false
    }

    open spec fn answers(bytes: Seq<u8>, said: Result<usize, SinkError>) -> bool {
        said == Err::<usize, _>(SinkError::WriteZero)
    }

    open spec fn flushes(said: Result<(), SinkError>) -> bool {
        said is Ok
    }

    fn write(&mut self, bytes: &[u8]) -> Result<usize, SinkError> {
        Err(SinkError::WriteZero)
    }

    fn flush(&mut self) -> Result<(), SinkError> {
        Ok(())
    }
}

/// What a container session keeps count of.
pub struct Tally {
    /// Whether the container has failed.
    pub failed: bool,
    /// Payload taken over all resources.
    pub total_in: u64,
    /// Whether the end of a resource is still being handed out.
    pub delivering: bool,
}

/// A sum that stops at the top.
pub open spec fn saturated(sum: int) -> int {
    if sum > u64::MAX {
        u64::MAX as int
    } else {
        sum
    }
}

/// A container being handed out.
pub struct FramedEncoderSession<'c, C: Encoders> {
    /// What compresses the resources.
    pub compressor: &'c mut C,
    /// The container.
    pub core: Container<Pulled>,
    /// The counts.
    pub tally: Tally,
    /// What was asked for the resources so far.
    pub asked: Ghost<Seq<Asked<C>>>,
}

impl<'c, C: Encoders> FramedEncoderSession<'c, C> {
    /// The container is as it should be, and the end of a resource is only being
    /// handed out while something is queued.
    pub open spec fn wf(&self) -> bool {
        &&& self.core.wf()
        &&& self.tally.delivering ==> self.core.pending@.len() > 0 && self.core.resources > 0
    }

    /// Starts a container.
    pub fn new(compressor: &'c mut C, config: FramingConfig) -> (result: Result<
        Self,
        FramedEncodeError,
    >)
        ensures
            match container::refused_config(config) {
                Some(error) => result is Err && result->Err_0 == FramedEncodeError::Framing(error),
                None => {
                    &&& result is Ok
                    &&& result->Ok_0.wf()
                    &&& result->Ok_0.core.is_fresh(Pulled, config)
                    &&& !result->Ok_0.tally.failed
                    &&& result->Ok_0.tally.total_in == 0
                    &&& !result->Ok_0.tally.delivering
                    &&& result->Ok_0.asked@.len() == 0
                    &&& *result->Ok_0.compressor == *old(compressor)
                    &&& *final(result->Ok_0.compressor) == *final(compressor)
                },
            },
    {
        match Container::new(Pulled, config) {
            Err(error) => Err(FramedEncodeError::Framing(error)),
            Ok(core) => Ok(
                FramedEncoderSession {
                    compressor,
                    core,
                    tally: Tally { failed: false, total_in: 0, delivering: false },
                    asked: Ghost(Seq::empty()),
                },
            ),
        }
    }

    /// Returns how much payload was taken over all resources.
    pub fn total_in(&self) -> (total: u64)
        ensures
            total == self.tally.total_in,
    {
        self.tally.total_in
    }

    /// Returns how many bytes were handed out.
    pub fn total_out(&self) -> (total: u64)
        requires
            self.wf(),
        ensures
            total == self.core.sent@.len(),
    {
        handed_out(&self.core)
    }

    /// The resources that were handed out whole.
    pub open spec fn whole_resources(&self) -> int {
        self.core.resources - if self.tally.delivering {
            1int
        } else {
            0
        }
    }

    /// Returns how many resources were handed out whole.
    pub fn resources_encoded(&self) -> (count: u64)
        requires
            self.wf(),
        ensures
            count == self.whole_resources(),
    {
        if self.tally.delivering {
            self.core.resources - 1
        } else {
            self.core.resources
        }
    }

    /// Returns whether the container was ended and handed out whole.
    pub fn is_finished(&self) -> (finished: bool)
        ensures
            finished == (self.core.finished && self.core.pending@.len() == 0),
    {
        self.core.finished && self.core.pending.len() == 0
    }

    /// Returns where the next chunk will start.
    pub fn next_chunk_offset(&self) -> (offset: u64)
        requires
            self.wf(),
        ensures
            offset == self.core.wire().len(),
    {
        self.core.offset()
    }

    /// Why no command can be taken, if none can.
    pub open spec fn refuses_commands(&self) -> Option<FramedEncodeError> {
        if self.tally.failed {
            Some(FramedEncodeError::InvalidState)
        } else if self.core.pending@.len() > 0 {
            Some(FramedEncodeError::OutputPending)
        } else {
            None
        }
    }

    /// Checks that a command can be taken.
    fn ready(&self) -> (result: Result<(), FramedEncodeError>)
        ensures
            match self.refuses_commands() {
                Some(error) => result == Err::<(), _>(error),
                None => result is Ok,
            },
    {
        if self.tally.failed {
            return Err(FramedEncodeError::InvalidState);
        }
        if self.core.pending.len() > 0 {
            return Err(FramedEncodeError::OutputPending);
        }
        Ok(())
    }

    /// Hands out what is queued, or everything up to the end.
    ///
    /// The end is generated once, however many calls it takes to hand it out. A
    /// failure is final.
    pub fn process(&mut self, output: &mut [u8], operation: FramedEncodeOperation) -> (result: Result<
        FramedEncodeProgress,
        FramedEncodeFailure,
    >)
        requires
            old(self).wf(),
        ensures
            final(self).wf(),
            final(output)@.len() == old(output)@.len(),
            final(self).tally.total_in == old(self).tally.total_in,
            match result {
                Ok(progress) => final(output)@.skip(progress.produced as int) == old(output)@.skip(
                    progress.produced as int,
                ),
                Err(failure) => final(output)@.skip(failure.produced as int) == old(output)@.skip(
                    failure.produced as int,
                ),
            },
            old(self).tally.failed ==> result == Err::<FramedEncodeProgress, _>(
                FramedEncodeFailure {
                    error: FramedEncodeError::InvalidState,
                    consumed: 0,
                    produced: 0,
                },
            ) && final(self).core == old(self).core,
            !old(self).tally.failed && operation == FramedEncodeOperation::Finish && old(self).core.refuses_end() is Some ==> result == Err::<FramedEncodeProgress, _>(
                FramedEncodeFailure {
                    error: FramedEncodeError::Framing(old(self).core.refuses_end()->0),
                    consumed: 0,
                    produced: 0,
                },
            ) && final(self).core == old(self).core && final(self).tally.failed,
            !old(self).tally.failed && operation == FramedEncodeOperation::Process ==> result is Ok
                && final(self).core.wire() == old(self).core.wire()
                && final(self).core.only_drained(&old(self).core),
            !old(self).tally.failed && operation == FramedEncodeOperation::Finish && old(self).core.refuses_end() is None ==> final(self).core.whole() == old(self).core.whole()
                && final(self).core.kept_from(&old(self).core) && final(self).core.stopped_by()
                == old(self).core.stopped_by(),
            *final(self).compressor == *old(self).compressor,
            *final(final(self).compressor) == *final(old(self).compressor),
            final(self).asked == old(self).asked,
            !old(self).tally.failed && (operation == FramedEncodeOperation::Process
                || old(self).core.refuses_end() is None) ==> final(self).tally.delivering == (
            old(self).tally.delivering && final(self).core.sent@.len()
                < old(self).core.wire().len()),
            match result {
                Ok(progress) => {
                    &&& !final(self).tally.failed
                    &&& progress.consumed == 0
                    &&& progress.produced <= final(output)@.len()
                    &&& final(self).core.sent@ == old(self).core.sent@ + final(output)@.take(
                        progress.produced as int,
                    )
                    &&& match progress.status {
                        FramedEncoderStatus::NeedsOutput => final(self).core.pending@.len() > 0
                            && progress.produced == final(output)@.len(),
                        FramedEncoderStatus::Finished => final(self).core.finished
                            && final(self).core.pending@.len() == 0 && final(self).core.sent@
                            == final(self).core.wire() && final(self).core.stopped_by() is None,
                        FramedEncoderStatus::NeedsInput => operation
                            == FramedEncodeOperation::Process && !final(self).core.finished
                            && final(self).core.pending@.len() == 0 && final(self).core.sent@
                            == final(self).core.wire(),
                    }
                },
                Err(failure) => {
                    &&& final(self).tally.failed
                    &&& !old(self).tally.failed && old(self).core.refuses_end() is None ==> {
                        &&& operation == FramedEncodeOperation::Finish
                        &&& final(self).core.pending@.len() == 0
                        &&& old(self).core.stopped_by() is Some
                        &&& failure.error == FramedEncodeError::Framing(
                            old(self).core.stopped_by()->0,
                        )
                    }
                    &&& failure.consumed == 0
                    &&& failure.produced <= final(output)@.len()
                    &&& final(self).core.sent@ == old(self).core.sent@ + final(output)@.take(
                        failure.produced as int,
                    )
                },
            },
    {
        assert(self.core.sent@ + output@.take(0) =~= self.core.sent@);
        if self.tally.failed {
            return Err(
                FramedEncodeFailure {
                    error: FramedEncodeError::InvalidState,
                    consumed: 0,
                    produced: 0,
                },
            );
        }
        let ending: bool = matches!(operation, FramedEncodeOperation::Finish);
        if ending {
            if self.core.active || self.core.metadata_pending {
                self.tally.failed = true;
                return Err(
                    FramedEncodeFailure {
                        error: FramedEncodeError::Framing(
                            FramingError::Invalid("resource is missing, unfinished, or abandoned"),
                        ),
                        consumed: 0,
                        produced: 0,
                    },
                );
            }
            if !self.core.config.container && self.core.resources != 1 {
                self.tally.failed = true;
                return Err(
                    FramedEncodeFailure {
                        error: FramedEncodeError::Framing(
                            FramingError::Invalid(
                                "single-resource profile requires exactly one resource",
                            ),
                        ),
                        consumed: 0,
                        produced: 0,
                    },
                );
            }
            self.core.finishing = true;
        }
        let mut produced: usize = 0;
        proof {
            assert(self.core.records.len() <= usize::MAX);
            self.core.lemma_ends_like(&old(self).core);
        }
        loop
            invariant
                self.wf(),
                !self.tally.failed,
                !old(self).tally.failed,
                self.tally.total_in == old(self).tally.total_in,
                ending == (operation == FramedEncodeOperation::Finish),
                ending ==> old(self).core.refuses_end() is None,
                produced <= output@.len(),
                output@.len() == old(output)@.len(),
                output@.skip(produced as int) == old(output)@.skip(produced as int),
                self.core.config == old(self).core.config,
                self.core.sent@ == old(self).core.sent@ + output@.take(produced as int),
                self.core.whole() == old(self).core.whole(),
                self.core.kept_from(&old(self).core),
                self.core.stopped_by() == old(self).core.stopped_by(),
                *self.compressor == *old(self).compressor,
                *final(self.compressor) == *final(old(self).compressor),
                self.asked == old(self).asked,
                self.core.wire().len() >= old(self).core.wire().len(),
                self.tally.delivering ==> old(self).tally.delivering && self.core.wire()
                    == old(self).core.wire(),
                old(self).tally.delivering && !self.tally.delivering ==> self.core.sent@.len()
                    >= old(self).core.wire().len(),
                !ending ==> self.core.wire() == old(self).core.wire() && self.core.only_drained(
                    &old(self).core,
                ),
            decreases
                self.core.steps_left() + if self.core.finished {
                    0int
                } else {
                    1
                },
        {
            let ghost shown = output@;
            let ghost held = self.core;
            let filled: usize = self.core.pull(output, produced);
            proof {
                assert(self.core.records.len() <= usize::MAX);
                self.core.lemma_ends_like(&held);
                lemma_tail(output@, shown, old(output)@, produced as int, filled as int);
                assert(output@.take(filled as int) =~= shown.take(produced as int)
                    + output@.subrange(produced as int, filled as int));
                assert(self.core.sent@ =~= old(self).core.sent@ + output@.take(filled as int));
            }
            produced = filled;
            if self.core.pending.len() > 0 {
                return Ok(
                    FramedEncodeProgress {
                        consumed: 0,
                        produced,
                        status: FramedEncoderStatus::NeedsOutput,
                    },
                );
            }
            self.tally.delivering = false;
            assert(self.core.sent@ =~= self.core.wire());
            if self.core.finished {
                return Ok(
                    FramedEncodeProgress {
                        consumed: 0,
                        produced,
                        status: FramedEncoderStatus::Finished,
                    },
                );
            }
            if !ending {
                return Ok(
                    FramedEncodeProgress {
                        consumed: 0,
                        produced,
                        status: FramedEncoderStatus::NeedsInput,
                    },
                );
            }
            if self.core.config.container {
                let ghost open = self.core;
                let closed = self.core.close_next();
                proof {
                    if closed is Ok {
                        self.core.lemma_ends_like(&open.stepped());
                    }
                }
                match closed {
                    Err(error) => {
                        self.tally.failed = true;
                        return Err(
                            FramedEncodeFailure {
                                error: FramedEncodeError::Framing(error),
                                consumed: 0,
                                produced,
                            },
                        );
                    },
                    Ok(_) => {},
                }
            } else {
                self.core.finished = true;
            }
        }
    }

    /// Queues metadata.
    pub fn metadata(&mut self, kind: MetadataKind, fields: &[MetadataField]) -> (result: Result<
        (),
        FramedEncodeError,
    >)
        requires
            old(self).wf(),
        ensures
            final(self).wf(),
            final(self).tally == old(self).tally,
            final(self).asked == old(self).asked,
            *final(self).compressor == *old(self).compressor,
            *final(final(self).compressor) == *final(old(self).compressor),
            old(self).refuses_commands() matches Some(error) ==> result == Err::<(), _>(error)
                && final(self).core == old(self).core,
            final(self).core.sent == old(self).core.sent,
            result is Err && container::fields_content(fields@).len() <= usize::MAX
                ==> final(self).core == old(self).core,
            old(self).refuses_commands() is None ==> match result {
                Ok(_) => final(self).core.queues_metadata(&old(self).core, kind, fields@, Ok(())),
                Err(error) => error is Framing && final(self).core.queues_metadata(
                    &old(self).core,
                    kind,
                    fields@,
                    Err(error->Framing_0),
                ),
            },
    {
        match self.ready() {
            Err(error) => return Err(error),
            Ok(_) => {},
        }
        match self.core.metadata(kind, fields) {
            Err(error) => Err(FramedEncodeError::Framing(error)),
            Ok(_) => Ok(()),
        }
    }

    /// Queues a chunk of zeros.
    pub fn padding(&mut self, bytes: usize) -> (result: Result<(), FramedEncodeError>)
        requires
            old(self).wf(),
        ensures
            final(self).wf(),
            final(self).tally == old(self).tally,
            final(self).asked == old(self).asked,
            *final(self).compressor == *old(self).compressor,
            *final(final(self).compressor) == *final(old(self).compressor),
            old(self).refuses_commands() matches Some(error) ==> result == Err::<(), _>(error)
                && final(self).core == old(self).core,
            final(self).core.sent == old(self).core.sent,
            result is Err ==> final(self).core == old(self).core,
            old(self).refuses_commands() is None ==> match result {
                Ok(_) => final(self).core.queues_padding(&old(self).core, bytes, Ok(())),
                Err(error) => error is Framing && final(self).core.queues_padding(
                    &old(self).core,
                    bytes,
                    Err(error->Framing_0),
                ),
            },
    {
        match self.ready() {
            Err(error) => return Err(error),
            Ok(_) => {},
        }
        match self.core.padding(bytes) {
            Err(error) => Err(FramedEncodeError::Framing(error)),
            Ok(_) => Ok(()),
        }
    }
}

/// What was refused because output waited is accepted once that was handed out, as
/// it would have been had nothing waited.
pub proof fn lemma_accepted_once_drained<'c, C: Encoders>(
    before: &FramedEncoderSession<'c, C>,
    after: &FramedEncoderSession<'c, C>,
    kind: MetadataKind,
    fields: Seq<MetadataField>,
    bytes: int,
    stream: StreamConfig,
    references: Seq<DictionaryReference>,
)
    requires
        before.refuses_commands() == Some(FramedEncodeError::OutputPending),
        after.core.only_drained(&before.core),
        after.core.pending@.len() == 0,
        !after.tally.failed,
    ensures
        after.refuses_commands() is None,
        after.core.refuses_resource() == before.core.refuses_resource(),
        writer::refuses_stream(after.core, stream) == writer::refuses_stream(before.core, stream),
        writer::refuses_dictionary(after.core, stream, references)
            == writer::refuses_dictionary(before.core, stream, references),
        after.core.refuses_fields(kind, fields) == before.core.refuses_fields(kind, fields),
        after.core.refuses_padding(bytes) == before.core.refuses_padding(bytes),
{
    after.core.lemma_references_drained(&before.core, references);
}

/// What follows a part that was filled is as it was offered.
proof fn lemma_tail(output: Seq<u8>, shown: Seq<u8>, offered: Seq<u8>, from: int, to: int)
    requires
        0 <= from <= to <= output.len(),
        output.len() == shown.len() == offered.len(),
        shown.skip(from) == offered.skip(from),
        output.skip(to) == shown.skip(to),
    ensures
        output.skip(to) == offered.skip(to),
{
    assert(shown.skip(to) =~= shown.skip(from).skip(to - from));
    assert(offered.skip(to) =~= offered.skip(from).skip(to - from));
}

/// Returns how many bytes of a container were handed out.
fn handed_out<W>(core: &Container<W>) -> (total: u64)
    requires
        core.wf(),
    ensures
        total == core.sent@.len(),
{
    core.offset - (core.pending.len() - core.cursor) as u64
}

/// One resource of a container being handed out.
pub struct FramedResourceSession<'s, E> {
    /// The resource.
    pub inner: Resource<'s, Pulled, E>,
    /// The counts of the container.
    pub tally: &'s mut Tally,
    /// Payload taken.
    pub taken: u64,
    /// How much of the container was handed out before.
    pub begun: u64,
}

impl<'s, E: StreamEncoder> FramedResourceSession<'s, E> {
    /// The resource is as it should be, and the counts are right.
    pub open spec fn wf(&self) -> bool {
        &&& self.inner.wf()
        &&& self.begun <= self.inner.core.sent@.len()
        &&& self.taken == saturated(self.inner.taken@.len() as int)
        &&& self.tally.delivering ==> self.inner.core.pending@.len() > 0
            && self.inner.core.resources > 0
        &&& self.inner.failed ==> self.tally.failed
    }

    /// The resource was ended and handed out whole.
    pub open spec fn is_whole(&self) -> bool {
        self.inner.finished && self.inner.core.pending@.len() == 0
    }

    /// How many bytes of the resource were handed out.
    pub open spec fn handed_out(&self) -> int {
        self.inner.core.sent@.len() - self.begun
    }

    /// Returns whether the resource was handed out whole.
    pub fn is_finished(&self) -> (finished: bool)
        ensures
            finished == self.is_whole(),
    {
        self.inner.finished && self.inner.core.pending.len() == 0
    }

    /// Returns how much payload was taken.
    pub fn total_in(&self) -> (total: u64)
        requires
            self.wf(),
        ensures
            total == saturated(self.inner.taken@.len() as int),
    {
        self.taken
    }

    /// Returns how many bytes of the resource were handed out.
    pub fn total_out(&self) -> (total: u64)
        requires
            self.wf(),
        ensures
            total == self.handed_out(),
    {
        handed_out(&*self.inner.core) - self.begun
    }
}

/// What a started resource looks like.
pub open spec fn just_started<E: StreamEncoder>(
    resource: FramedResourceSession<'_, E>,
    before: Container<Pulled>,
    options: ResourceOptions,
) -> bool {
    &&& resource.wf()
    &&& !resource.tally.failed
    &&& resource.inner.options == options
    &&& resource.inner.taken@.len() == 0
    &&& resource.inner.input@.len() == 0
    &&& resource.inner.chunks@.len() == 0
    &&& resource.inner.first && !resource.inner.finished && !resource.inner.failed
    &&& *resource.inner.core == (Container {
        active: true,
        after_resource: false,
        metadata_pending: false,
        ..before
    })
    &&& resource.handed_out() == 0
}

impl<'c, C: Encoders> FramedEncoderSession<'c, C> {
    /// Starts a compressed resource.
    pub fn resource(&mut self, options: ResourceOptions, stream: StreamConfig) -> (result: Result<
        FramedResourceSession<'_, C::Encoder>,
        FramedEncodeError,
    >)
        requires
            old(self).wf(),
        ensures
            final(self).asked@.len() == old(self).asked@.len() ==> *final(self).compressor
                == *old(self).compressor,
            *final(final(self).compressor) == *final(old(self).compressor),
            old(self).refuses_commands() matches Some(error) ==> result is Err && result->Err_0
                == error && final(self).core == old(self).core && final(self).asked
                == old(self).asked,
            old(self).refuses_commands() is None ==> match writer::refuses_stream(old(self).core, stream) {
                Some(error) => result is Err && result->Err_0 == FramedEncodeError::Framing(error)
                    && final(self).core == old(self).core && final(self).asked == old(self).asked,
                None => writer::has_asked(old(self).asked@, final(self).asked@, None, stream) && (
                match writer::refuses_start(final(self).asked@.last().started) {
                    Some(error) => result is Err && result->Err_0 == FramedEncodeError::Framing(
                        error,
                    ),
                    None => result is Ok,
                }),
            },
            result is Err ==> final(self).wf() && final(self).core == old(self).core
                && final(self).tally == old(self).tally,
            result matches Ok(resource) ==> {
                let asked = final(self).asked@.last();
                &&& just_started(resource, old(self).core, options)
                &&& *resource.tally == old(self).tally
                &&& resource.inner.session is Some
                &&& resource.inner.session->0.is_fresh(
                    (asked.started->Ok_0).0,
                    (asked.started->Ok_0).1,
                    stream,
                )
                &&& resource.inner.references@ == if asked.large {
                    seq![0u8]
                } else {
                    Seq::empty()
                }
                &&& final(self).core == *final(resource.inner.core)
                &&& final(self).tally == *final(resource.tally)
            },
    {
        match self.ready() {
            Err(error) => return Err(error),
            Ok(_) => {},
        }
        if stream.stream_offset() != 0 {
            return Err(
                FramedEncodeError::Framing(
                    FramingError::Invalid(
                        "a new resource requires a stream header; its offset must be zero",
                    ),
                ),
            );
        }
        match self.core.begin() {
            Err(error) => return Err(FramedEncodeError::Framing(error)),
            Ok(_) => {},
        }
        let (large, started) = ask_for_encoder(self.compressor, &mut self.asked, None, stream);
        let mut references: Vec<u8> = Vec::new();
        if large {
            references.push(0);
        }
        assert(references@ =~= if large {
            seq![0u8]
        } else {
            Seq::empty()
        });
        match begin_stream(started, stream) {
            Err(error) => Err(FramedEncodeError::Framing(error)),
            Ok(session) => {
                let begun: u64 = handed_out(&self.core);
                Ok(
                    FramedResourceSession {
                        inner: Resource::new(&mut self.core, Some(session), options, references),
                        tally: &mut self.tally,
                        taken: 0,
                        begun,
                    },
                )
            },
        }
    }

    /// Starts a resource compressed with a dictionary.
    pub fn resource_with_dictionary(
        &mut self,
        options: ResourceOptions,
        stream: StreamConfig,
        dictionary: &C::Dictionary,
        references: &[DictionaryReference],
    ) -> (result: Result<FramedResourceSession<'_, C::Encoder>, FramedEncodeError>)
        requires
            old(self).wf(),
        ensures
            final(self).asked@.len() == old(self).asked@.len() ==> *final(self).compressor
                == *old(self).compressor,
            *final(final(self).compressor) == *final(old(self).compressor),
            old(self).refuses_commands() matches Some(error) ==> result is Err && result->Err_0
                == error && final(self).core == old(self).core && final(self).asked
                == old(self).asked,
            old(self).refuses_commands() is None ==> match writer::refuses_dictionary(
                old(self).core,
                stream,
                references@,
            ) {
                Some(error) => result is Err && result->Err_0 == FramedEncodeError::Framing(error)
                    && final(self).core == old(self).core && final(self).asked == old(self).asked,
                None => writer::has_asked(old(self).asked@, final(self).asked@, Some(*dictionary), stream) && (
                match writer::refuses_start(final(self).asked@.last().started) {
                    Some(error) => result is Err && result->Err_0 == FramedEncodeError::Framing(
                        error,
                    ),
                    None => result is Ok,
                }),
            },
            result is Err ==> final(self).wf() && final(self).core == old(self).core
                && final(self).tally == old(self).tally,
            result matches Ok(resource) ==> {
                let asked = final(self).asked@.last();
                &&& just_started(resource, old(self).core, options)
                &&& *resource.tally == old(self).tally
                &&& resource.inner.session is Some
                &&& resource.inner.session->0.is_fresh(
                    (asked.started->Ok_0).0,
                    (asked.started->Ok_0).1,
                    stream,
                )
                &&& resource.inner.references@ == seq![references@.len() as u8]
                    + container::listed_references(references@)
                &&& final(self).core == *final(resource.inner.core)
                &&& final(self).tally == *final(resource.tally)
            },
    {
        match self.ready() {
            Err(error) => return Err(error),
            Ok(_) => {},
        }
        if stream.stream_offset() != 0 {
            return Err(
                FramedEncodeError::Framing(
                    FramingError::Invalid(
                        "a new resource requires a stream header; its offset must be zero",
                    ),
                ),
            );
        }
        let encoded: Vec<u8> = match self.core.references(references) {
            Err(error) => return Err(FramedEncodeError::Framing(error)),
            Ok(encoded) => encoded,
        };
        match self.core.begin() {
            Err(error) => return Err(FramedEncodeError::Framing(error)),
            Ok(_) => {},
        }
        let (_, started) = ask_for_encoder(
            self.compressor,
            &mut self.asked,
            Some(dictionary),
            stream,
        );
        match begin_stream(started, stream) {
            Err(error) => Err(FramedEncodeError::Framing(error)),
            Ok(session) => {
                let begun: u64 = handed_out(&self.core);
                Ok(
                    FramedResourceSession {
                        inner: Resource::new(&mut self.core, Some(session), options, encoded),
                        tally: &mut self.tally,
                        taken: 0,
                        begun,
                    },
                )
            },
        }
    }

    /// Starts a resource that is stored as it is.
    pub fn uncompressed_resource(&mut self, options: ResourceOptions) -> (result: Result<
        FramedResourceSession<'_, C::Encoder>,
        FramedEncodeError,
    >)
        requires
            old(self).wf(),
        ensures
            old(self).refuses_commands() matches Some(error) ==> result is Err && result->Err_0
                == error && final(self).core == old(self).core,
            old(self).refuses_commands() is None ==> (match old(self).core.refuses_resource() {
                Some(error) => result is Err && result->Err_0 == FramedEncodeError::Framing(error)
                    && final(self).core == old(self).core,
                None => result is Ok,
            }),
            *final(self).compressor == *old(self).compressor,
            *final(final(self).compressor) == *final(old(self).compressor),
            final(self).asked == old(self).asked,
            result is Err ==> final(self).wf() && final(self).core == old(self).core
                && final(self).tally == old(self).tally,
            result matches Ok(resource) ==> {
                &&& *resource.tally == old(self).tally
                &&& resource.inner.references@.len() == 0
                &&& just_started(resource, old(self).core, options)
                &&& resource.inner.session is None
                &&& final(self).core == *final(resource.inner.core)
                &&& final(self).tally == *final(resource.tally)
            },
    {
        match self.ready() {
            Err(error) => return Err(error),
            Ok(_) => {},
        }
        match self.core.begin() {
            Err(error) => return Err(FramedEncodeError::Framing(error)),
            Ok(_) => {},
        }
        let begun: u64 = handed_out(&self.core);
        Ok(
            FramedResourceSession {
                inner: Resource::new(&mut self.core, None, options, Vec::new()),
                tally: &mut self.tally,
                taken: 0,
                begun,
            },
        )
    }
}

/// A chunk is due: it is full, or ends the resource, or is flushed and the last so far.
pub open spec fn due(chunk: Chunk, full: int, operation: Operation, newest: bool) -> bool {
    ||| !chunk.last && chunk.payload.len() == full
    ||| chunk.last && operation == Operation::Finish
    ||| !chunk.last && chunk.payload.len() > 0 && operation == Operation::Flush && newest
}

impl<'s, E: StreamEncoder> FramedResourceSession<'s, E> {
    /// The chunks a call added are those that were due.
    pub open spec fn chunked(&self, before: &Self, operation: Operation) -> bool {
        &&& before.inner.chunks@.is_prefix_of(self.inner.chunks@)
        &&& forall|i: int|
            before.inner.chunks@.len() <= i < self.inner.chunks@.len() ==> due(
                #[trigger] self.inner.chunks@[i],
                self.inner.core.config.chunk_bytes as int,
                operation,
                i == self.inner.chunks@.len() - 1,
            )
    }

    /// As long as no chunk was added, payload is gathered, and nothing else changes.
    pub open spec fn only_gathers(&self, before: &Self, payload: Seq<u8>) -> bool {
        self.inner.chunks@.len() == before.inner.chunks@.len() ==> {
            &&& self.inner.core.only_drained(before.inner.core)
            &&& self.inner.input@ == before.inner.input@ + payload
            &&& self.inner.first == before.inner.first
            &&& self.inner.finished == before.inner.finished
        }
    }

    /// Takes payload and hands out chunks.
    ///
    /// A flush or finish that needs output is repeated with the same operation and
    /// the payload that is left. A failure is final.
    #[verifier::rlimit(40)]
    pub fn process(&mut self, input: &[u8], output: &mut [u8], operation: Operation) -> (result: Result<
        FramedEncodeProgress,
        FramedEncodeFailure,
    >)
        requires
            old(self).wf(),
        ensures
            final(self).wf(),
            final(output)@.len() == old(output)@.len(),
            match result {
                Ok(progress) => final(output)@.skip(progress.produced as int) == old(output)@.skip(
                    progress.produced as int,
                ),
                Err(failure) => final(output)@.skip(failure.produced as int) == old(output)@.skip(
                    failure.produced as int,
                ),
            },
            final(self).inner.same_kind(&old(self).inner),
            final(self).chunked(old(self), operation),
            *final(final(self).inner.core) == *final(old(self).inner.core),
            *final(final(self).tally) == *final(old(self).tally),
            old(self).tally.failed ==> result == Err::<FramedEncodeProgress, _>(
                FramedEncodeFailure {
                    error: FramedEncodeError::InvalidState,
                    consumed: 0,
                    produced: 0,
                },
            ) && final(self).inner.unchanged(&old(self).inner) && *final(self).inner.core == *old(self).inner.core,
            old(self).inner.finished && !old(self).tally.failed ==> result is Ok
                && result->Ok_0.consumed == 0,
            final(self).inner.core.resources == old(self).inner.core.resources + if
                final(self).inner.finished && !old(self).inner.finished {
                1int
            } else {
                0
            },
            match result {
                Ok(progress) => {
                    &&& !final(self).tally.failed
                    &&& progress.consumed <= input@.len()
                    &&& final(self).only_gathers(
                        old(self),
                        input@.take(progress.consumed as int),
                    )
                    &&& progress.produced <= final(output)@.len()
                    &&& final(self).inner.taken@ == old(self).inner.taken@ + input@.take(
                        progress.consumed as int,
                    )
                    &&& final(self).tally.total_in == saturated(
                        old(self).tally.total_in + progress.consumed,
                    )
                    &&& final(self).inner.core.sent@ == old(self).inner.core.sent@
                        + final(output)@.take(progress.produced as int)
                    &&& match progress.status {
                        FramedEncoderStatus::NeedsOutput => {
                            &&& final(self).inner.core.pending@.len() > 0
                            &&& progress.produced == final(output)@.len()
                            &&& if final(self).inner.chunks@.len() == old(self).inner.chunks@.len() {
                                progress.consumed == 0 && old(self).inner.core.pending@.len() > 0
                            } else {
                                final(self).inner.input@.len() == 0
                            }
                        },
                        FramedEncoderStatus::Finished => final(self).is_whole()
                            && !final(self).tally.delivering && (
                        old(self).inner.finished || operation == Operation::Finish
                            && progress.consumed == input@.len() && final(self).inner.carried@
                            == final(self).inner.taken@),
                        FramedEncoderStatus::NeedsInput => {
                            &&& operation != Operation::Finish
                            &&& progress.consumed == input@.len()
                            &&& !final(self).inner.finished
                            &&& final(self).inner.core.pending@.len() == 0
                            &&& operation == Operation::Flush ==> final(self).inner.carried@
                                == final(self).inner.taken@
                        },
                    }
                },
                Err(failure) => {
                    &&& final(self).tally.failed
                    // A limit is in the way, or the payload could not be encoded or framed.
                    &&& !old(self).tally.failed ==> failure.error is Framing && (
                    !final(self).inner.failed && final(self).inner.refuses_encoding() == Some(
                        failure.error->Framing_0,
                    ) || final(self).inner.refused(
                        operation == Operation::Finish && failure.consumed == input@.len(),
                        failure.error->Framing_0,
                    ))
                    &&& failure.consumed <= input@.len()
                    // Only where a chunk is due can it fail.
                    &&& !old(self).tally.failed ==> !final(self).inner.finished
                    &&& !old(self).tally.failed ==> failure.consumed == input@.len()
                        || final(self).inner.input@.len()
                        == final(self).inner.core.config.chunk_bytes
                    &&& final(self).only_gathers(old(self), input@.take(failure.consumed as int))
                    &&& failure.produced <= final(output)@.len()
                    &&& final(self).inner.taken@ == old(self).inner.taken@ + input@.take(
                        failure.consumed as int,
                    )
                    &&& final(self).tally.total_in == saturated(
                        old(self).tally.total_in + failure.consumed,
                    )
                    &&& final(self).inner.core.sent@ == old(self).inner.core.sent@
                        + final(output)@.take(failure.produced as int)
                },
            },
    {
        proof {
            assert(self.inner.core.sent@ + output@.take(0) =~= self.inner.core.sent@);
            assert(self.inner.taken@ + input@.take(0) =~= self.inner.taken@);
            assert(self.inner.input@ + input@.take(0) =~= self.inner.input@);
        }
        if self.tally.failed {
            return Err(
                FramedEncodeFailure {
                    error: FramedEncodeError::InvalidState,
                    consumed: 0,
                    produced: 0,
                },
            );
        }
        let mut consumed: usize = 0;
        let mut produced: usize = 0;
        let ghost ended = self.inner.finished;
        loop
            invariant
                self.wf(),
                !self.tally.failed,
                !old(self).tally.failed,
                *final(self.inner.core) == *final(old(self).inner.core),
                *final(self.tally) == *final(old(self).tally),
                old(self).wf(),
                self.inner.same_kind(&old(self).inner),
                ended == old(self).inner.finished,
                ended ==> self.inner.finished && consumed == 0,
                self.inner.finished ==> ended || operation == Operation::Finish && consumed
                    == input@.len() && self.inner.input@.len() == 0,
                consumed <= input@.len(),
                produced <= output@.len(),
                self.inner.core.config == old(self).inner.core.config,
                self.chunked(old(self), operation),
                self.only_gathers(old(self), input@.take(consumed as int)),
                self.inner.core.pending@.len() > 0 ==> if self.inner.chunks@.len()
                    == old(self).inner.chunks@.len() {
                    consumed == 0 && old(self).inner.core.pending@.len() > 0
                } else {
                    self.inner.input@.len() == 0
                },
                self.inner.chunks@.len() > old(self).inner.chunks@.len()
                    && self.inner.chunks@.last().payload.len()
                    != self.inner.core.config.chunk_bytes ==> consumed == input@.len()
                    && self.inner.input@.len() == 0,
                output@.len() == old(output)@.len(),
                output@.skip(produced as int) == old(output)@.skip(produced as int),
                self.inner.taken@ == old(self).inner.taken@ + input@.take(consumed as int),
                self.tally.total_in == saturated(old(self).tally.total_in + consumed),
                self.inner.core.sent@ == old(self).inner.core.sent@ + output@.take(produced as int),
            decreases
                input@.len() - consumed,
                if self.inner.finished {
                    0int
                } else {
                    1
                },
                self.inner.input@.len(),
        {
            let ghost shown = output@;
            let filled: usize = self.inner.core.pull(output, produced);
            proof {
                lemma_tail(output@, shown, old(output)@, produced as int, filled as int);
                assert(output@.take(filled as int) =~= shown.take(produced as int)
                    + output@.subrange(produced as int, filled as int));
                assert(self.inner.core.sent@ =~= old(self).inner.core.sent@ + output@.take(
                    filled as int,
                ));
            }
            produced = filled;
            if self.inner.core.pending.len() > 0 {
                return Ok(
                    FramedEncodeProgress {
                        consumed,
                        produced,
                        status: FramedEncoderStatus::NeedsOutput,
                    },
                );
            }
            self.tally.delivering = false;
            if self.inner.finished {
                assert(self.inner.carried@ + self.inner.input@ =~= self.inner.carried@
                    || self.inner.input@.len() > 0);
                return Ok(
                    FramedEncodeProgress {
                        consumed,
                        produced,
                        status: FramedEncoderStatus::Finished,
                    },
                );
            }
            let chunk: usize = self.inner.core.config.chunk_bytes;
            if consumed < input.len() && self.inner.input.len() < chunk {
                let ghost sent = self.inner.core.sent@;
                assert(self.inner.core.wire() =~= sent);
                match self.inner.write(&input[consumed..input.len()]) {
                    Err(error) => {
                        self.tally.failed = true;
                        return Err(
                            FramedEncodeFailure {
                                error: FramedEncodeError::Framing(error),
                                consumed,
                                produced,
                            },
                        );
                    },
                    Ok(count) => {
                        proof {
                            let rest = input@.subrange(consumed as int, input@.len() as int);
                            assert(input@.take(consumed as int) + rest.take(count as int)
                                =~= input@.take(consumed + count));
                            assert(self.inner.taken@ =~= old(self).inner.taken@ + input@.take(
                                consumed + count,
                            ));
                            let gathered = old(self).inner.input@;
                            assert(gathered + input@.take(consumed as int) + rest.take(count as int)
                                =~= gathered + input@.take(consumed + count));
                        }
                        consumed = consumed + count;
                        self.taken = self.taken.saturating_add(count as u64);
                        self.tally.total_in = self.tally.total_in.saturating_add(count as u64);
                    },
                }
                continue;
            }
            let waits: bool = consumed == input.len() && (matches!(operation, Operation::Process)
                || matches!(operation, Operation::Flush) && self.inner.input.len() == 0);
            if waits {
                assert(self.inner.input@.len() == 0 ==> self.inner.carried@ + self.inner.input@
                    =~= self.inner.carried@);
                return Ok(
                    FramedEncodeProgress {
                        consumed,
                        produced,
                        status: FramedEncoderStatus::NeedsInput,
                    },
                );
            }
            let last: bool = consumed == input.len() && matches!(operation, Operation::Finish);
            let ghost held = self.inner.chunks@;
            let ghost gathered = self.inner.input@;
            match self.inner.emit(last) {
                Err(error) => {
                    self.tally.failed = true;
                    return Err(
                        FramedEncodeFailure {
                            error: FramedEncodeError::Framing(error),
                            consumed,
                            produced,
                        },
                    );
                },
                Ok(_) => {},
            }
            proof {
                let chunk = self.inner.chunks@.last();
                assert(self.inner.chunks@ =~= held.push(chunk));
                assert(chunk.payload == gathered && chunk.last == last);
                assert(old(self).inner.chunks@ =~= self.inner.chunks@.take(
                    old(self).inner.chunks@.len() as int,
                ));
                assert forall|i: int|
                    old(self).inner.chunks@.len() <= i < self.inner.chunks@.len() implies due(
                    #[trigger] self.inner.chunks@[i],
                    self.inner.core.config.chunk_bytes as int,
                    operation,
                    i == self.inner.chunks@.len() - 1,
                ) by {
                    if i < held.len() {
                        assert(self.inner.chunks@[i] == held[i]);
                        assert(due(
                            held[i],
                            self.inner.core.config.chunk_bytes as int,
                            operation,
                            i == held.len() - 1,
                        ));
                        if i == held.len() - 1 {
                            assert(held.last() == held[i]);
                        }
                    }
                }
            }
            if last {
                self.tally.delivering = true;
            }
        }
    }
}

} // verus!
