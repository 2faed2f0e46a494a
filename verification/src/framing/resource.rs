//! One resource: its payload is gathered a chunk at a time, encoded, and framed.
use vstd::prelude::*;

use crate::framing::container;
use crate::framing::container::{number, times, Container, SCRATCH_BYTES};
use crate::framing::types::{FramingError, ResourceOptions, Sink};
use crate::framing::varint;
use crate::session::{EncodeError, EncoderSession, EncoderStatus, Operation, Phase, StreamEncoder};

verus! {

/// What kind of chunk carries a part of a resource.
pub open spec fn kind_of(first: bool, last: bool) -> u8 {
    if first {
        if last {
            2
        } else {
            3
        }
    } else if last {
        5
    } else {
        4
    }
}

/// How a chunk says its payload is encoded.
pub open spec fn codec_of(compressed: bool, first: bool, references: Seq<u8>) -> u8 {
    if !compressed {
        0
    } else if !first {
        1
    } else if references.len() == 0 {
        2
    } else {
        3
    }
}

/// The flags of a chunk.
pub open spec fn flags_of(options: ResourceOptions, first: bool, last: bool) -> u8 {
    if last && options.id is Some {
        if first && options.hidden {
            3
        } else {
            2
        }
    } else if first && options.hidden {
        1
    } else {
        0
    }
}

/// The header of a chunk that carries some payload.
pub open spec fn header_of(
    options: ResourceOptions,
    compressed: bool,
    references: Seq<u8>,
    first: bool,
    last: bool,
    payload: int,
) -> Seq<u8> {
    let codec = codec_of(compressed, first, references);
    seq![kind_of(first, last), codec] + (if codec != 0 {
        varint::encoded(payload)
    } else {
        Seq::empty()
    }) + (if codec == 3 {
        references
    } else {
        Seq::empty()
    }) + seq![flags_of(options, first, last)] + (if last && options.id is Some {
        seq![3u8] + (options.id->0).0@
    } else {
        Seq::empty()
    })
}

/// A chunk of a resource.
pub struct Chunk {
    /// The payload it carries.
    pub payload: Seq<u8>,
    /// What it holds: the payload itself, or what the encoder delivered.
    pub content: Seq<u8>,
    /// Whether it is the last.
    pub last: bool,
}

/// The payload some chunks carry.
pub open spec fn payload_of(chunks: Seq<Chunk>) -> Seq<u8>
    decreases chunks.len(),
{
    if chunks.len() == 0 {
        Seq::empty()
    } else {
        payload_of(chunks.drop_last()) + chunks.last().payload
    }
}

/// What some chunks hold.
pub open spec fn content_of(chunks: Seq<Chunk>) -> Seq<u8>
    decreases chunks.len(),
{
    if chunks.len() == 0 {
        Seq::empty()
    } else {
        content_of(chunks.drop_last()) + chunks.last().content
    }
}

/// The chunks of a resource on the wire, one after the other.
pub open spec fn on_wire(
    options: ResourceOptions,
    compressed: bool,
    references: Seq<u8>,
    chunks: Seq<Chunk>,
) -> Seq<u8>
    decreases chunks.len(),
{
    if chunks.len() == 0 {
        Seq::empty()
    } else {
        let chunk = chunks.last();
        on_wire(options, compressed, references, chunks.drop_last()) + container::chunk_of(
            header_of(
                options,
                compressed,
                references,
                chunks.len() == 1,
                chunk.last,
                chunk.payload.len() as int,
            ),
            chunk.content,
        )
    }
}

/// The chunks end with the last one, or are still to end.
pub open spec fn ends_once(chunks: Seq<Chunk>, finished: bool) -> bool {
    &&& forall|i: int| 0 <= i < chunks.len() - 1 ==> !(#[trigger] chunks[i]).last
    &&& finished == (chunks.len() > 0 && chunks.last().last)
}

/// One resource being written into a container.
pub struct Resource<'a, W, E> {
    /// The container.
    pub core: &'a mut Container<W>,
    /// The stream that compresses the payload, unless it is stored as it is.
    pub session: Option<EncoderSession<E>>,
    /// How the resource is announced.
    pub options: ResourceOptions,
    /// The dictionaries it was compressed with.
    pub references: Vec<u8>,
    /// Payload gathered for the next chunk.
    pub input: Vec<u8>,
    /// Whether no chunk was emitted yet.
    pub first: bool,
    /// Whether the last chunk was emitted.
    pub finished: bool,
    /// Whether a chunk could not be encoded.
    pub failed: bool,
    /// All payload accepted.
    pub taken: Ghost<Seq<u8>>,
    /// The payload that the chunks so far carry.
    pub carried: Ghost<Seq<u8>>,
    /// The contents of the chunks so far.
    pub contents: Ghost<Seq<u8>>,
    /// The chunks so far.
    pub chunks: Ghost<Seq<Chunk>>,
    /// The wire before the first chunk.
    pub before: Ghost<Seq<u8>>,
    /// How many resources were ended before.
    pub ended_before: Ghost<int>,
}

impl<'a, W, E: StreamEncoder> Resource<'a, W, E> {
    /// The wire has grown by the chunks, which carry the payload in order, and by
    /// nothing else; a resource counts once its last chunk is there.
    pub open spec fn is_chunked(&self) -> bool {
        &&& self.core.wire() == self.before@ + on_wire(
            self.options,
            self.session is Some,
            self.references@,
            self.chunks@,
        )
        &&& self.carried@ == payload_of(self.chunks@)
        &&& self.contents@ == content_of(self.chunks@)
        &&& self.session is None ==> forall|i: int|
            0 <= i < self.chunks@.len() ==> (#[trigger] self.chunks@[i]).content
                == self.chunks@[i].payload
        &&& self.first == (self.chunks@.len() == 0)
        &&& ends_once(self.chunks@, self.finished)
        &&& self.core.resources == self.ended_before@ + if self.finished {
            1int
        } else {
            0
        }
    }

    /// No payload is lost: what was taken was carried or is gathered, and what the
    /// chunks hold is the payload itself or exactly what its encoder delivered.
    pub open spec fn wf(&self) -> bool {
        &&& self.core.wf()
        &&& self.input@.len() <= self.core.config.chunk_bytes
        &&& self.taken@ == self.carried@ + self.input@
        &&& !self.finished ==> self.core.active
        &&& self.is_chunked()
        &&& match self.session {
            None => self.contents@ == self.carried@,
            Some(session) => {
                &&& session.wf() || session.phase == Phase::Failed
                &&& !self.failed ==> {
                    &&& session.accepted@ == self.carried@
                    &&& session.delivered@ == self.contents@
                    &&& session.phase == Phase::Finished ==> self.finished
                }
            },
        }
    }

    /// Starts a resource in a container.
    pub fn new(
        core: &'a mut Container<W>,
        session: Option<EncoderSession<E>>,
        options: ResourceOptions,
        references: Vec<u8>,
    ) -> (resource: Self)
        requires
            old(core).wf(),
            session matches Some(stream) ==> stream.wf() && stream.phase == Phase::Open
                && stream.accepted@.len() == 0 && stream.delivered@.len() == 0,
        ensures
            resource.wf(),
            *resource.core == (Container {
                active: true,
                after_resource: false,
                metadata_pending: false,
                ..*old(core)
            }),
            *final(core) == *final(resource.core),
            resource.session == session,
            resource.options == options,
            resource.references@ == references@,
            resource.input@.len() == 0,
            resource.first,
            !resource.finished,
            !resource.failed,
            resource.taken@.len() == 0,
            resource.chunks@.len() == 0,
            resource.before@ == old(core).wire(),
    {
        let ghost core_wire = core.wire();
        let ghost ended = core.resources as int;
        core.active = true;
        core.after_resource = false;
        core.metadata_pending = false;
        proof {
            if session is Some {
                assert(session->0.accepted@ =~= Seq::empty());
                assert(session->0.delivered@ =~= Seq::empty());
            }
            assert(Seq::<u8>::empty() + Seq::<u8>::empty() =~= Seq::empty());
            assert(core_wire + Seq::<u8>::empty() =~= core_wire);
        }
        Resource {
            core,
            session,
            options,
            references,
            input: Vec::new(),
            first: true,
            finished: false,
            failed: false,
            taken: Ghost(Seq::empty()),
            carried: Ghost(Seq::empty()),
            contents: Ghost(Seq::empty()),
            chunks: Ghost(Seq::empty()),
            before: Ghost(core_wire),
            ended_before: Ghost(ended),
        }
    }

    /// The resource is where it was; the container need not be.
    pub open spec fn unchanged(&self, before: &Self) -> bool {
        &&& self.session == before.session
        &&& self.options == before.options
        &&& self.references == before.references
        &&& self.input == before.input
        &&& self.first == before.first
        &&& self.finished == before.finished
        &&& self.failed == before.failed
        &&& self.taken == before.taken
        &&& self.carried == before.carried
        &&& self.contents == before.contents
        &&& self.chunks == before.chunks
        &&& self.before == before.before
        &&& self.ended_before == before.ended_before
    }

    /// How the resource is written is as it was.
    pub open spec fn same_kind(&self, before: &Self) -> bool {
        &&& self.core.config == before.core.config
        &&& self.options == before.options
        &&& self.references == before.references
        &&& self.session is Some == before.session is Some
        &&& self.before == before.before
        &&& self.ended_before == before.ended_before
        &&& before.chunks@.is_prefix_of(self.chunks@)
    }

    /// The header of the next chunk.
    pub open spec fn next_header(&self, last: bool) -> Seq<u8> {
        header_of(
            self.options,
            self.session is Some,
            self.references@,
            self.first,
            last,
            self.input@.len() as int,
        )
    }

    /// Writes the header of the next chunk.
    fn chunk_header(&self, last: bool) -> (header: Vec<u8>)
        requires
            self.wf(),
        ensures
            header@ == self.next_header(last),
            header@.len() > 0,
    {
        let compressed: bool = match &self.session {
            None => false,
            Some(_) => true,
        };
        let kind: u8 = if self.first {
            if last {
                2
            } else {
                3
            }
        } else if last {
            5
        } else {
            4
        };
        let codec: u8 = if !compressed {
            0
        } else if !self.first {
            1
        } else if self.references.len() == 0 {
            2
        } else {
            3
        };
        let mut header: Vec<u8> = Vec::new();
        header.push(kind);
        header.push(codec);
        let ghost opening = seq![kind, codec];
        assert(header@ =~= opening);
        if codec != 0 {
            let _ = number(self.input.len() as u64, &mut header);
        }
        let ghost sized = opening + (if codec != 0 {
            varint::encoded(self.input@.len() as int)
        } else {
            Seq::empty()
        });
        assert(header@ =~= sized);
        if codec == 3 {
            header.extend_from_slice(self.references.as_slice());
        }
        let ghost referring = sized + (if codec == 3 {
            self.references@
        } else {
            Seq::empty()
        });
        assert(header@ =~= referring);
        let named: bool = last && self.options.id.is_some();
        let hidden: bool = self.first && self.options.hidden;
        let flags: u8 = if named {
            if hidden {
                3
            } else {
                2
            }
        } else if hidden {
            1
        } else {
            0
        };
        header.push(flags);
        assert(header@ =~= referring + seq![flags]);
        if named {
            match self.options.id {
                None => {},
                Some(id) => {
                    let ghost before = header@;
                    header.push(3);
                    let mut i: usize = 0;
                    while i < 32
                        invariant
                            i <= 32,
                            header@ == before + seq![3u8] + id.0@.take(i as int),
                        decreases 32 - i,
                    {
                        header.push(id.0[i]);
                        i += 1;
                        assert(header@ =~= before + seq![3u8] + id.0@.take(i as int));
                    }
                    assert(id.0@.take(32) =~= id.0@);
                    assert(header@ =~= before + (seq![3u8] + id.0@));
                },
            }
        } else {
            assert(header@ =~= header@ + Seq::empty());
        }
        header
    }

    /// Frames the gathered payload, whose encoding is `content`.
    ///
    /// A refused chunk leaves the payload where it is.
    pub fn seal(&mut self, content: &[u8], last: bool) -> (result: Result<(), FramingError>)
        requires
            old(self).wf(),
            !old(self).finished,
            match old(self).session {
                None => content@ == old(self).input@,
                Some(session) => session.wf() && session.accepted@ == old(self).carried@ + old(self).input@ && session.delivered@ == old(self).contents@ + content@ && (session.phase
                    == Phase::Finished ==> last),
            },
            old(self).failed,
        ensures
            final(self).wf(),
            final(self).session == old(self).session,
            final(self).options == old(self).options,
            final(self).references == old(self).references,
            final(self).taken@ == old(self).taken@,
            *final(final(self).core) == *final(old(self).core),
            match old(self).core.refuses_chunk(old(self).next_header(last), content@, true) {
                Some(error) => result == Err::<(), _>(error) && final(self).unchanged(old(self))
                    && *final(self).core == *old(self).core,
                None => {
                    &&& result is Ok
                    &&& !final(self).failed
                    &&& !final(self).first
                    &&& final(self).finished == last
                    &&& final(self).input@.len() == 0
                    &&& final(self).carried@ == old(self).taken@
                    &&& final(self).contents@ == old(self).contents@ + content@
                    &&& final(self).before == old(self).before
                    &&& final(self).ended_before == old(self).ended_before
                    &&& final(self).chunks@ == old(self).chunks@.push(
                        Chunk { payload: old(self).input@, content: content@, last },
                    )
                    &&& final(self).core.has_queued(
                        old(self).core,
                        old(self).next_header(last),
                        content@,
                        true,
                    )
                    &&& final(self).core.only_grown(old(self).core)
                    &&& final(self).core.sent@ == old(self).core.sent@
                    &&& final(self).core.writer == old(self).core.writer
                    &&& final(self).core.config == old(self).core.config
                    &&& final(self).core.active == (old(self).core.active && !last)
                    &&& final(self).core.after_resource == (old(self).core.after_resource || last)
                    &&& final(self).core.resources == old(self).core.resources + if last {
                        1int
                    } else {
                        0
                    }
                },
            },
    {
        let header: Vec<u8> = self.chunk_header(last);
        match self.core.queue(header, content, true) {
            Err(error) => return Err(error),
            Ok(_) => {},
        }
        self.failed = false;
        self.first = false;
        self.carried = Ghost(self.carried@ + self.input@);
        self.contents = Ghost(self.contents@ + content@);
        let ghost chunks = self.chunks@;
        let ghost chunk = Chunk { payload: self.input@, content: content@, last };
        self.chunks = Ghost(chunks.push(chunk));
        self.input.clear();
        proof {
            assert(chunks.push(chunk).drop_last() =~= chunks);
            let wire = on_wire(
                self.options,
                self.session is Some,
                self.references@,
                chunks,
            );
            let added = container::chunk_of(old(self).next_header(last), content@);
            assert(self.before@ + wire + added =~= self.before@ + (wire + added));
            assert forall|i: int| 0 <= i < self.chunks@.len() - 1 implies !(
            #[trigger] self.chunks@[i]).last by {
                assert(self.chunks@[i] == chunks[i]);
                if i == chunks.len() - 1 {
                    assert(chunks.last() == chunks[i]);
                }
            }
            assert forall|i: int|
                self.session is None && 0 <= i < self.chunks@.len() implies (
            #[trigger] self.chunks@[i]).content == self.chunks@[i].payload by {
                if i < chunks.len() {
                    assert(self.chunks@[i] == chunks[i]);
                }
            }
        }
        assert(self.taken@ =~= self.carried@ + self.input@);
        if last {
            self.finished = true;
            self.core.active = false;
            self.core.after_resource = true;
            self.core.resources = self.core.resources + 1;
        }
        Ok(())
    }
}

impl<'a, W: Sink, E: StreamEncoder> Resource<'a, W, E> {
    /// Something kept the next chunk from being encoded at all.
    pub open spec fn refuses_encoding(&self) -> Option<FramingError> {
        if self.failed {
            Some(FramingError::Invalid("resource encoding previously failed"))
        } else if container::saturated(
            self.core.retained + container::working_room(self.core.config),
        ) > self.core.config.max_buffer_bytes {
            Some(FramingError::Limit("retained framing bytes"))
        } else if self.core.chunks >= self.core.config.max_chunks {
            Some(FramingError::Limit("chunk count"))
        } else {
            None
        }
    }

    /// No limit keeps the gathered payload, as it is, from becoming the last chunk.
    pub open spec fn has_room_to_end(&self) -> bool {
        &&& !self.failed ==> self.refuses_encoding() is None
        &&& self.core.refuses_next(self.next_header(true), self.input@, true) is None
    }

    /// A chunk with some content went onto the wire, and carries all that was gathered:
    /// the payload as it is, or what its stream delivered for it. No limit kept it back.
    pub open spec fn grown_by(&self, before: &Self, last: bool, content: Seq<u8>) -> bool {
        &&& before.refuses_encoding() is None
        &&& before.core.refuses_next(before.next_header(last), content, true) is None
        &&& before.session matches Some(earlier) ==> {
            &&& self.session matches Some(session)
            &&& session.accepted@ == earlier.accepted@ + before.input@
            &&& session.delivered@ == earlier.delivered@ + content
            &&& session.waiting().len() == 0
            &&& session.phase == Phase::Finished <==> last
            &&& !before.core.overflows_with(content.len() as int)
        }
        &&& self.contents@ == before.contents@ + content
        &&& self.chunks@ == before.chunks@.push(Chunk { payload: before.input@, content, last })
        &&& before.session is None ==> content == before.input@
        &&& self.carried@ == before.taken@
        &&& self.core.wire() == before.core.wire() + container::chunk_of(
            before.next_header(last),
            content,
        )
        &&& self.core.accounts_for(before.core, before.next_header(last), content, true)
        &&& self.core.only_grown(before.core)
    }

    /// One chunk went onto the wire.
    pub open spec fn grown(&self, before: &Self, last: bool) -> bool {
        exists|content: Seq<u8>| #[trigger] self.grown_by(before, last, content)
    }

    /// What the stream delivered for the payload that no chunk carries yet.
    pub open spec fn delivered_since(&self) -> Seq<u8> {
        self.session->0.delivered@.skip(self.contents@.len() as int)
    }

    /// The gathered payload could not be encoded or framed, and ended the resource.
    pub open spec fn refused(&self, last: bool, error: FramingError) -> bool {
        &&& self.failed
        &&& match self.session {
            None => self.core.refuses_next(self.next_header(last), self.input@, true) == Some(
                error,
            ),
            Some(session) => {
                let content = self.delivered_since();
                ||| error is Encode && session.gave_up(self.input@.len() as int, error->Encode_0)
                ||| self.contents@.is_prefix_of(session.delivered@) && if self.core.overflows_with(
                    content.len() as int,
                ) {
                    error == FramingError::Limit("retained framing bytes")
                } else {
                    &&& session.accepted@ == self.taken@
                    &&& session.waiting().len() == 0
                    &&& self.core.refuses_next(self.next_header(last), content, true) == Some(error)
                }
            },
        }
    }

    /// Nothing went onto the wire: the sink stopped it, a limit or an earlier failure
    /// did, or the payload itself could not be encoded or framed.
    pub open spec fn stopped(&self, before: &Self, last: bool, error: FramingError) -> bool {
        &&& self.core.wire() == before.core.wire()
        &&& self.core.only_drained(before.core)
        &&& self.input@ == before.input@
        &&& self.first == before.first
        &&& self.finished == before.finished
        &&& self.chunks == before.chunks
        &&& self.contents == before.contents
        &&& {
            ||| self.unchanged(before) && self.core.sink_stopped(before.core, Err::<(), _>(error))
            ||| self.unchanged(before) && before.refuses_encoding() == Some(error)
            ||| before.refuses_encoding() is None && self.refused(last, error)
        }
    }

    /// A chunk went onto the wire, but the sink did not take all that was waiting.
    pub open spec fn kept_waiting(&self, before: &Self, error: FramingError) -> bool {
        &&& error is Io
        &&& self.core.sink_said(error->Io_0)
        &&& self.core.waiting().len() > 0
        &&& !before.core.writer.obliges()
    }

    /// What ending a resource leaves of it.
    pub open spec fn ends(&self, before: &Self, result: Result<(), FramingError>) -> bool {
        &&& self.wf()
        &&& self.same_kind(before)
        &&& self.core.passes_on(before.core)
        &&& self.taken@ == before.taken@
        &&& result is Ok ==> self.finished && self.core.pending@.len() == 0 && self.core.sent@
            == self.core.wire()
        &&& before.finished ==> self.unchanged(before) && self.core.wire() == before.core.wire()
            && self.core.only_drained(before.core) && (result is Ok || self.core.sink_stopped(
            before.core,
            result,
        ))
        &&& !before.finished && self.finished ==> {
            &&& self.grown(before, true)
            &&& self.input@.len() == 0
            &&& !self.core.active
            &&& self.core.resources == before.core.resources + 1
            &&& result matches Err(error) ==> self.kept_waiting(before, error)
        }
        &&& !before.finished && !self.finished ==> (result matches Err(error) && self.stopped(
            before,
            true,
            error,
        ))
    }

    /// What offering payload leaves of a resource.
    pub open spec fn takes(
        &self,
        before: &Self,
        input: Seq<u8>,
        result: Result<usize, FramingError>,
    ) -> bool {
        let most = before.core.config.chunk_bytes as int;
        &&& self.wf()
        &&& self.same_kind(before)
        &&& self.core.passes_on(before.core)
        &&& input.len() == 0 ==> result == Ok::<usize, FramingError>(0) && self.unchanged(before)
            && *self.core == *before.core
        &&& input.len() > 0 && (before.finished || before.failed) ==> result == Err::<usize, _>(
            FramingError::Invalid("resource is finished"),
        ) && self.unchanged(before) && *self.core == *before.core
        &&& match result {
            Ok(count) => {
                &&& self.taken@ == before.taken@ + input.take(count as int)
                &&& self.finished == before.finished
                &&& input.len() > 0 ==> {
                    &&& !self.failed
                    &&& self.core.pending@.len() == 0
                    &&& self.core.sent@ == self.core.wire()
                }
                &&& input.len() > 0 && before.input@.len() < most ==> {
                    &&& count == if input.len() < most - before.input@.len() {
                        input.len() as int
                    } else {
                        most - before.input@.len()
                    }
                    &&& self.input@ == before.input@ + input.take(count as int)
                    &&& self.core.wire() == before.core.wire()
                    &&& self.core.only_drained(before.core)
                    &&& self.first == before.first
                    &&& self.chunks == before.chunks
                    &&& self.contents == before.contents
                }
                &&& input.len() > 0 && before.input@.len() == most ==> {
                    &&& count == if input.len() < most {
                        input.len() as int
                    } else {
                        most
                    }
                    &&& self.input@ == input.take(count as int)
                    &&& self.grown(before, false)
                }
            },
            Err(_) => self.taken@ == before.taken@,
        }
        // Payload that has room is only refused by the sink.
        &&& input.len() > 0 && !before.finished && !before.failed && before.input@.len() < most
            ==> result is Ok || self.unchanged(before) && self.core.sink_stopped(
            before.core,
            result,
        )
        // Where a chunk is full, it has to go onto the wire first.
        &&& input.len() > 0 && !before.finished && !before.failed && before.input@.len() == most ==> (
        result matches Err(error) ==> self.stopped(before, false, error) || self.grown(before, false)
            && self.input@.len() == 0 && self.kept_waiting(before, error))
    }

    /// What a flush leaves of a resource.
    pub open spec fn flushes(&self, before: &Self, result: Result<(), FramingError>) -> bool {
        let emits = !before.finished && before.input@.len() > 0;
        &&& self.wf()
        &&& self.same_kind(before)
        &&& self.core.passes_on(before.core)
        &&& self.taken@ == before.taken@
        &&& self.finished == before.finished
        &&& result is Ok ==> {
            &&& self.core.pending@.len() == 0
            &&& self.core.sent@ == self.core.wire()
            &&& W::flushes(Ok(()))
            &&& !before.finished ==> self.input@.len() == 0
            &&& emits ==> self.grown(before, false)
        }
        &&& !emits ==> {
            &&& self.unchanged(before)
            &&& self.core.wire() == before.core.wire()
            &&& result matches Err(error) ==> self.core.sink_stopped(before.core, result)
                || self.flush_failed(before, error)
        }
        &&& emits ==> (result matches Err(error) ==> self.stopped(before, false, error)
            || self.grown(before, false) && self.input@.len() == 0 && (self.kept_waiting(
            before,
            error,
        ) || self.flush_failed(before, error)))
    }

    /// Everything was taken, but the sink could not pass it on.
    pub open spec fn flush_failed(&self, before: &Self, error: FramingError) -> bool {
        &&& error is Io
        &&& W::flushes(Err(error->Io_0))
        &&& self.core.pending@.len() == 0
        &&& !before.core.writer.obliges()
    }

    /// Encodes the gathered payload and returns what the encoder delivered.
    ///
    /// The stream is flushed, or ended with the last chunk, so nothing stays behind
    /// in it. Delivering goes on for as long as what was delivered may be kept.
    fn compress(&mut self, last: bool) -> (result: Result<Vec<u8>, FramingError>)
        requires
            old(self).wf(),
            old(self).failed,
            old(self).session matches Some(session) ==> session.accepted@ == old(self).carried@
                && session.delivered@ == old(self).contents@ && session.phase != Phase::Finished,
        ensures
            final(self).wf(),
            *final(self).core == *old(self).core,
            *final(final(self).core) == *final(old(self).core),
            final(self).options == old(self).options,
            final(self).references == old(self).references,
            final(self).input == old(self).input,
            final(self).first == old(self).first,
            final(self).finished == old(self).finished,
            final(self).failed,
            final(self).taken == old(self).taken,
            final(self).carried == old(self).carried,
            final(self).contents == old(self).contents,
            final(self).chunks == old(self).chunks,
            final(self).before == old(self).before,
            final(self).ended_before == old(self).ended_before,
            final(self).session is Some == old(self).session is Some,
            old(self).session is None ==> result is Ok && result->Ok_0@ == old(self).input@,
            result matches Err(error) ==> {
                &&& final(self).session matches Some(session)
                &&& {
                    ||| error is Encode && session.gave_up(
                        old(self).input@.len() as int,
                        error->Encode_0,
                    )
                    ||| {
                        &&& error == FramingError::Limit("retained framing bytes")
                        &&& old(self).contents@.is_prefix_of(session.delivered@)
                        &&& old(self).core.overflows_with(
                            session.delivered@.len() - old(self).contents@.len(),
                        )
                    }
                }
            },
            result matches Ok(content) ==> match final(self).session {
                None => content@ == old(self).input@,
                Some(session) => {
                    &&& session.wf()
                    &&& session.waiting().len() == 0
                    &&& !old(self).core.overflows_with(content@.len() as int)
                    &&& session.accepted@ == old(self).carried@ + old(self).input@
                    &&& session.delivered@ == old(self).contents@ + content@
                    &&& session.phase == Phase::Finished <==> last
                },
            },
    {
        let mut content: Vec<u8> = Vec::new();
        let held = self.session.take();
        match held {
            None => {
                content.extend_from_slice(self.input.as_slice());
                assert(content@ =~= self.input@);
                Ok(content)
            },
            Some(mut session) => {
                let operation: Operation = if last {
                    Operation::Finish
                } else {
                    Operation::Flush
                };
                let outcome = feed(
                    &mut session,
                    self.input.as_slice(),
                    operation,
                    self.core,
                    &mut content,
                );
                self.session = Some(session);
                match outcome {
                    Err(error) => Err(error),
                    Ok(_) => Ok(content),
                }
            },
        }
    }

    /// Encodes and frames the gathered payload.
    ///
    /// A failure of the sink leaves the resource as it was and can be repaired. A
    /// payload that could not be encoded or framed ends the resource.
    #[verifier::rlimit(60)]
    #[verifier::spinoff_prover]
    pub fn emit(&mut self, last: bool) -> (result: Result<(), FramingError>)
        requires
            old(self).wf(),
            !old(self).finished,
        ensures
            final(self).wf(),
            final(self).taken@ == old(self).taken@,
            final(self).core.config == old(self).core.config,
            *final(final(self).core) == *final(old(self).core),
            final(self).options == old(self).options,
            final(self).references == old(self).references,
            final(self).session is Some == old(self).session is Some,
            final(self).same_kind(old(self)),
            final(self).core.passes_on(old(self).core),
            old(self).core.pending@.len() == 0 ==> final(self).core.sent@ == old(self).core.sent@,
            result is Ok ==> {
                &&& old(self).refuses_encoding() is None
                &&& !final(self).failed
                &&& !final(self).first
                &&& final(self).finished == last
                &&& final(self).input@.len() == 0
                &&& final(self).grown(old(self), last)
                &&& final(self).core.active == !last
                &&& final(self).core.resources == old(self).core.resources + if last {
                    1int
                } else {
                    0
                }
            },
            result matches Err(error) ==> final(self).stopped(old(self), last, error),
    {
        match self.core.drain() {
            Err(error) => return Err(error),
            Ok(_) => {},
        }
        let ghost held = *self.core;
        if self.failed {
            return Err(FramingError::Invalid("resource encoding previously failed"));
        }
        match self.core.check_buffer(
            times(self.core.config.chunk_bytes, 4).saturating_add(SCRATCH_BYTES),
        ) {
            Err(error) => return Err(error),
            Ok(_) => {},
        }
        if self.core.chunks >= self.core.config.max_chunks {
            return Err(FramingError::Limit("chunk count"));
        }
        self.failed = true;
        match self.compress(last) {
            Err(error) => Err(error),
            Ok(content) => {
                let ghost header = self.next_header(last);
                assert(header == old(self).next_header(last));
                let sealed = self.seal(content.as_slice(), last);
                proof {
                    Container::lemma_stayed(&held, self.core);
                    Container::lemma_passed_on(old(self).core, &held, self.core);
                    if sealed is Ok {
                        assert(self.grown_by(old(self), last, content@));
                    } else if self.session is Some {
                        assert(self.delivered_since() =~= content@);
                        assert(self.session->0.delivered@.take(self.contents@.len() as int)
                            =~= self.contents@);
                    }
                }
                sealed
            },
        }
    }

    /// Ends the resource and passes its last chunk on.
    ///
    /// Can be repeated when the sink failed.
    pub fn try_finish(&mut self) -> (result: Result<(), FramingError>)
        requires
            old(self).wf(),
        ensures
            final(self).ends(old(self), result),
            *final(final(self).core) == *final(old(self).core),
    {
        let ghost mut content = Seq::<u8>::empty();
        proof {
            Container::lemma_stayed(old(self).core, self.core);
        }
        if !self.finished {
            match self.emit(true) {
                Err(error) => return Err(error),
                Ok(_) => {},
            }
            proof {
                content = choose|content: Seq<u8>| #[trigger]
                    self.grown_by(old(self), true, content);
            }
        }
        let ghost held = *self.core;
        let drained = self.core.drain();
        proof {
            Container::lemma_passed_on(old(self).core, &held, self.core);
        }
        assert(!old(self).finished ==> self.grown_by(old(self), true, content));
        drained
    }

    /// Takes payload into the next chunk and returns how much.
    ///
    /// A chunk is only emitted once there is payload to follow it, so that the last
    /// chunk of a resource is always the one emitted as the last.
    pub fn write(&mut self, input: &[u8]) -> (result: Result<usize, FramingError>)
        requires
            old(self).wf(),
        ensures
            final(self).takes(old(self), input@, result),
            *final(final(self).core) == *final(old(self).core),
    {
        proof {
            Container::lemma_stayed(old(self).core, self.core);
        }
        if input.len() == 0 {
            assert(self.taken@ + input@.take(0) =~= self.taken@);
            return Ok(0);
        }
        if self.finished || self.failed {
            return Err(FramingError::Invalid("resource is finished"));
        }
        let ghost full = self.input@.len() == self.core.config.chunk_bytes;
        let ghost mut content = Seq::<u8>::empty();
        if self.input.len() == self.core.config.chunk_bytes {
            match self.emit(false) {
                Err(error) => return Err(error),
                Ok(_) => {},
            }
            proof {
                content = choose|content: Seq<u8>| #[trigger]
                    self.grown_by(old(self), false, content);
            }
        }
        let ghost held = *self.core;
        let outcome = self.core.drain();
        proof {
            Container::lemma_passed_on(old(self).core, &held, self.core);
        }
        match outcome {
            Err(error) => {
                assert(full ==> self.grown_by(old(self), false, content));
                return Err(error);
            },
            Ok(_) => {},
        }
        assert(self.core.sent@ =~= self.core.wire());
        let room: usize = self.core.config.chunk_bytes - self.input.len();
        let count: usize = if input.len() < room {
            input.len()
        } else {
            room
        };
        let ghost before = self.input@;
        self.input.extend_from_slice(&input[0..count]);
        proof {
            assert(input@.subrange(0, count as int) =~= input@.take(count as int));
            assert(self.input@ =~= before + input@.take(count as int));
        }
        self.taken = Ghost(self.taken@ + input@.take(count as int));
        proof {
            assert(self.taken@ =~= self.carried@ + self.input@);
            assert(full ==> self.grown_by(old(self), false, content));
        }
        Ok(count)
    }

    /// Emits what was gathered and passes everything on.
    pub fn flush(&mut self) -> (result: Result<(), FramingError>)
        requires
            old(self).wf(),
        ensures
            final(self).flushes(old(self), result),
            *final(final(self).core) == *final(old(self).core),
    {
        let ghost mut content = Seq::<u8>::empty();
        proof {
            Container::lemma_stayed(old(self).core, self.core);
        }
        if self.input.len() > 0 && !self.finished {
            match self.emit(false) {
                Err(error) => return Err(error),
                Ok(_) => {},
            }
            proof {
                content = choose|content: Seq<u8>| #[trigger]
                    self.grown_by(old(self), false, content);
            }
        }
        let ghost held = *self.core;
        let drained = self.core.drain();
        proof {
            Container::lemma_passed_on(old(self).core, &held, self.core);
        }
        assert(old(self).input@.len() > 0 && !old(self).finished ==> self.grown_by(
            old(self),
            false,
            content,
        ));
        match drained {
            Err(error) => return Err(error),
            Ok(_) => {},
        }
        assert(self.core.sent@ =~= self.core.wire());
        let ghost held = *self.core;
        let flushed = self.core.writer.flush();
        proof {
            assert(self.core.sent@.skip(held.sent@.len() as int) =~= Seq::empty());
            assert(held.writer.taken() + Seq::<u8>::empty() =~= held.writer.taken());
            assert(self.core.sent@.take(held.sent@.len() as int) =~= held.sent@);
            Container::lemma_passed_on(old(self).core, &held, self.core);
        }
        assert(old(self).input@.len() > 0 && !old(self).finished ==> self.grown_by(
            old(self),
            false,
            content,
        ));
        match flushed {
            Err(error) => Err(FramingError::Io(error)),
            Ok(done) => {
                assert(done == ());
                Ok(())
            },
        }
    }
}

impl<'a, W, E: StreamEncoder> Resource<'a, W, E> {
    /// Borrows the sink, to repair it.
    pub fn get_mut(&mut self) -> (sink: &mut W)
        ensures
            *sink == old(self).core.writer,
            *final(self).core == (Container { writer: *final(sink), ..*old(self).core }),
            final(self).unchanged(old(self)),
            *final(final(self).core) == *final(old(self).core),
    {
        &mut self.core.writer
    }
}

/// Feeds payload to a stream until it has taken all and delivered all it has.
fn feed<W, E: StreamEncoder>(
    session: &mut EncoderSession<E>,
    payload: &[u8],
    operation: Operation,
    core: &Container<W>,
    content: &mut Vec<u8>,
) -> (result: Result<(), FramingError>)
    requires
        old(session).wf() || old(session).phase == Phase::Failed,
        operation != Operation::Process,
        old(content)@.len() == 0,
    ensures
        final(session).wf() || final(session).phase == Phase::Failed,
        result is Ok ==> !core.overflows_with(final(content)@.len() as int),
        result is Ok ==> {
            &&& final(session).wf()
            &&& final(session).phase != Phase::Failed
            &&& final(session).delivered@ == old(session).delivered@ + final(content)@
            &&& final(session).waiting().len() == 0
            &&& old(session).phase != Phase::Finished ==> final(session).accepted@
                == old(session).accepted@ + payload@
            &&& old(session).phase != Phase::Finished ==> (final(session).phase == Phase::Finished
                <==> operation == Operation::Finish)
        },
        result matches Err(error) ==> {
            ||| error is Encode && final(session).gave_up(payload@.len() as int, error->Encode_0)
            ||| {
                &&& error == FramingError::Limit("retained framing bytes")
                &&& old(session).delivered@.is_prefix_of(final(session).delivered@)
                &&& core.overflows_with(
                    final(session).delivered@.len() - old(session).delivered@.len(),
                )
            }
        },
{
    let mut consumed: usize = 0;
    let mut output: Vec<u8> = vec![0u8; SCRATCH_BYTES];
    let ghost ended = session.phase == Phase::Finished;
    proof {
        assert(session.accepted@ + payload@.take(0) =~= session.accepted@);
        assert(session.delivered@ + content@ =~= session.delivered@);
    }
    loop
        invariant_except_break
            session.wf() || session.phase == Phase::Failed,
            consumed <= payload@.len(),
            output@.len() == SCRATCH_BYTES,
            operation != Operation::Process,
            ended == (old(session).phase == Phase::Finished),
            ended ==> session.phase == Phase::Finished,
            !ended && session.phase == Phase::Finished ==> consumed == payload@.len() && operation
                == Operation::Finish,
            session.accepted@ == old(session).accepted@ + payload@.take(consumed as int),
            session.delivered@ == old(session).delivered@ + content@,
            content@.len() <= core.config.max_buffer_bytes,
            session.phase != Phase::Failed ==> session.logical_position
                == old(session).logical_position + consumed,
            session.phase == Phase::Failed <==> old(session).phase == Phase::Failed,
            session.phase == Phase::Failed ==> consumed == 0,
            consumed > 0 || content@.len() > 0 ==> !old(session).overruns(payload@.len() as int),
        ensures
            !core.overflows_with(content@.len() as int),
            session.wf(),
            session.phase != Phase::Failed,
            session.delivered@ == old(session).delivered@ + content@,
            session.waiting().len() == 0,
            !ended ==> session.accepted@ == old(session).accepted@ + payload@,
            operation == Operation::Finish ==> session.phase == Phase::Finished,
            !ended && session.phase == Phase::Finished ==> operation == Operation::Finish,
        decreases core.config.max_buffer_bytes - content@.len(),
    {
        let ghost before = *session;
        let ghost held = content@;
        let progress = match session.process(
            &payload[consumed..payload.len()],
            output.as_mut_slice(),
            operation,
        ) {
            Err(error) => {
                proof {
                    let offered = payload@.len() - consumed;
                    if before.phase == Phase::Failed {
                        assert(error is InvalidState);
                    } else if before.overruns(offered) {
                        assert(error is StreamPositionOverflow);
                        assert(consumed == 0);
                    } else if before.encoder is None {
                        assert(error is InternalInvariant);
                    } else {
                        assert(error is Compress);
                    }
                    assert(session.gave_up(payload@.len() as int, error));
                }
                return Err(FramingError::Encode(error));
            },
            Ok(progress) => progress,
        };
        let ghost rest = payload@.subrange(consumed as int, payload@.len() as int);
        proof {
            assert(payload@.take(consumed as int) + rest.take(progress.consumed as int)
                =~= payload@.take(consumed + progress.consumed));
            assert(session.accepted@ =~= old(session).accepted@ + payload@.take(
                consumed + progress.consumed,
            ));
        }
        consumed = consumed + progress.consumed;
        proof {
            assert(old(session).delivered@ + held + output@.take(progress.produced as int)
                =~= session.delivered@);
            assert(session.delivered@.take(old(session).delivered@.len() as int)
                =~= old(session).delivered@);
        }
        match core.check_delivered(content.len().saturating_add(progress.produced)) {
            Err(error) => return Err(error),
            Ok(_) => {},
        }
        content.extend_from_slice(&output.as_slice()[0..progress.produced]);
        let size: usize = content.len();
        assert(size <= core.config.max_buffer_bytes);
        proof {
            assert(output@.subrange(0, progress.produced as int) =~= output@.take(
                progress.produced as int,
            ));
            assert(old(session).delivered@ + held + output@.take(progress.produced as int)
                =~= old(session).delivered@ + content@);
        }
        match progress.status {
            EncoderStatus::NeedsOutput => {},
            _ => {
                assert(payload@.take(payload@.len() as int) =~= payload@);
                break;
            },
        }
    }
    Ok(())
}

/// A short payload that is stored as it is goes onto the wire whole, if the container may
/// have another chunk and the room that takes: its length, three bytes that say so, and
/// the payload.
pub proof fn lemma_short_payload_is_stored<'a, W: Sink, E: StreamEncoder>(resource: &Resource<'a, W, E>)
    requires
        resource.wf(),
        resource.session is None,
        resource.first,
        !resource.options.hidden,
        resource.options.id is None,
        resource.input@.len() <= 100,
        resource.core.chunks < resource.core.config.max_chunks,
        resource.core.offset + 104 <= varint::MAX_VARINT,
        resource.core.retained + resource.core.pending_capacity + container::working_room(
            resource.core.config,
        ) + (resource.core.grown_capacity(true) - resource.core.record_capacity)
            * container::RECORD_BYTES <= resource.core.config.max_buffer_bytes,
    ensures
        resource.has_room_to_end(),
        container::chunk_of(resource.next_header(true), resource.input@) == seq![
            (3 + resource.input@.len()) as u8,
            2,
            0,
            0,
        ] + resource.input@,
{
    let header = resource.next_header(true);
    let size = 3 + resource.input@.len() as int;
    assert(header =~= seq![2u8, 0, 0]);
    assert(varint::encoded(size) =~= seq![size as u8]);
    assert(container::chunk_of(header, resource.input@) =~= seq![size as u8, 2, 0, 0]
        + resource.input@);
}

/// The first chunk of a compressed resource says 2 where there are no references, and 3,
/// with the references behind it, where there are: so a short payload that ends with its
/// first chunk stands on the wire as these bytes.
pub proof fn lemma_short_payload_is_compressed<'a, W: Sink, E: StreamEncoder>(
    resource: &Resource<'a, W, E>,
    content: Seq<u8>,
)
    requires
        resource.session is Some,
        resource.first,
        !resource.options.hidden,
        resource.options.id is None,
        resource.input@.len() <= 100,
        resource.references@.len() + content.len() <= 100,
    ensures
        container::chunk_of(resource.next_header(true), content) == if resource.references@.len()
            == 0 {
            seq![(4 + content.len()) as u8, 2, 2, resource.input@.len() as u8, 0] + content
        } else {
            seq![
                (4 + resource.references@.len() + content.len()) as u8,
                2,
                3,
                resource.input@.len() as u8,
            ] + resource.references@ + seq![0u8] + content
        },
{
    let header = resource.next_header(true);
    let payload = resource.input@.len() as int;
    assert(varint::encoded(payload) =~= seq![payload as u8]);
    if resource.references@.len() == 0 {
        let size = 4 + content.len() as int;
        assert(header =~= seq![2u8, 2, payload as u8, 0]);
        assert(varint::encoded(size) =~= seq![size as u8]);
        assert(container::chunk_of(header, content) =~= seq![
            size as u8,
            2,
            2,
            payload as u8,
            0,
        ] + content);
    } else {
        let size = 4 + resource.references@.len() + content.len() as int;
        assert(header =~= seq![2u8, 3, payload as u8] + resource.references@ + seq![0u8]);
        assert(varint::encoded(size) =~= seq![size as u8]);
        assert(container::chunk_of(header, content) =~= seq![
            size as u8,
            2,
            3,
            payload as u8,
        ] + resource.references@ + seq![0u8] + content);
    }
}

/// A later chunk of a compressed resource says 1, and lists no references: a short one
/// stands on the wire as these bytes, in the middle of the resource or at its end.
pub proof fn lemma_later_chunk_goes_on<'a, W: Sink, E: StreamEncoder>(
    resource: &Resource<'a, W, E>,
    content: Seq<u8>,
    last: bool,
)
    requires
        resource.session is Some,
        !resource.first,
        resource.options.id is None,
        resource.input@.len() <= 100,
        content.len() <= 100,
    ensures
        container::chunk_of(resource.next_header(last), content) == seq![
            (4 + content.len()) as u8,
            if last {
                5
            } else {
                4
            },
            1,
            resource.input@.len() as u8,
            0,
        ] + content,
{
    let header = resource.next_header(last);
    let payload = resource.input@.len() as int;
    let size = 4 + content.len() as int;
    let kind: u8 = if last {
        5
    } else {
        4
    };
    assert(varint::encoded(payload) =~= seq![payload as u8]);
    assert(varint::encoded(size) =~= seq![size as u8]);
    assert(header =~= seq![kind, 1, payload as u8, 0]);
    assert(container::chunk_of(header, content) =~= seq![
        size as u8,
        kind,
        1,
        payload as u8,
        0,
    ] + content);
}

} // verus!
