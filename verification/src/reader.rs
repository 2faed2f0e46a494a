//! Compressing what a source delivers, a fragment at a time.
use vstd::prelude::*;

use crate::backend::Backend;
use crate::calls;
use crate::calls::{Call, CallLog};
use crate::config::{BrotliCompressError, CompressParams};
use crate::driver;
use crate::driver::{resolve_size_hint, BlockEncoder};

verus! {

/// Where input comes from.
///
/// A kind of source says nothing but what it can deliver.
pub trait Source: Sized {
    /// Why a read failed.
    type Error;

    /// A source of this kind can deliver some bytes into room for so many, or fail.
    open spec fn delivers(room: int, said: Result<Seq<u8>, Self::Error>) -> bool {
        arbitrary()
    }

    /// Reads some bytes into `buffer` and says how many; none mean the end.
    fn read(&mut self, buffer: &mut [u8]) -> (result: Result<usize, Self::Error>)
        ensures
            final(buffer)@.len() == old(buffer)@.len(),
            Self::delivers(
                old(buffer)@.len() as int,
                match result {
                    Ok(count) => Ok(filled(final(buffer)@, count)),
                    Err(error) => Err(error),
                },
            ),
    ;
}

/// What a buffer was filled with: no more than there is room for, whatever count
/// was given.
pub open spec fn filled(buffer: Seq<u8>, count: usize) -> Seq<u8> {
    if count <= buffer.len() {
        buffer.take(count as int)
    } else {
        buffer
    }
}

/// A vector as a source: its bytes from a position on.
pub struct Bytes {
    /// The bytes.
    pub data: Vec<u8>,
    /// How many were delivered.
    pub at: usize,
}

impl Bytes {
    /// What is still to be delivered.
    pub open spec fn left(&self) -> Seq<u8> {
        if self.at <= self.data@.len() {
            self.data@.skip(self.at as int)
        } else {
            Seq::empty()
        }
    }
}

impl Source for Bytes {
    type Error = ();

    open spec fn delivers(room: int, said: Result<Seq<u8>, ()>) -> bool {
        said matches Ok(bytes) && bytes.len() <= room
    }

    /// Delivers as much as there is room for, and never fails.
    fn read(&mut self, buffer: &mut [u8]) -> (result: Result<usize, ()>)
        ensures
            result matches Ok(count) && {
                &&& count == if old(self).left().len() < old(buffer)@.len() {
                    old(self).left().len() as int
                } else {
                    old(buffer)@.len() as int
                }
                &&& final(buffer)@ == old(self).left().take(count as int) + old(buffer)@.skip(
                    count as int,
                )
                &&& final(self).left() == old(self).left().skip(count as int)
            },
    {
        let size: usize = buffer.len();
        let total: usize = self.data.len();
        let at: usize = self.at;
        let left: usize = if at < total {
            total - at
        } else {
            0
        };
        let count: usize = if left < size {
            left
        } else {
            size
        };
        let mut i: usize = 0;
        while i < count
            invariant
                i <= count <= size,
                count > 0 ==> at + count <= total,
                total == self.data@.len(),
                at == self.at,
                *self == *old(self),
                size == buffer@.len(),
                size == old(buffer)@.len(),
                forall|k: int| 0 <= k < i ==> #[trigger] buffer@[k] == self.data@[at + k],
                forall|k: int| i <= k < size ==> #[trigger] buffer@[k] == old(buffer)@[k],
            decreases count - i,
        {
            buffer[i] = self.data[at + i];
            i += 1;
        }
        if count > 0 {
            self.at = at + count;
        }
        proof {
            assert(buffer@ =~= old(self).left().take(count as int) + old(buffer)@.skip(
                count as int,
            ));
            assert(self.left() =~= old(self).left().skip(count as int));
        }
        Ok(count)
    }
}

/// Why compressing what a source delivers failed.
#[derive(Debug)]
pub enum ReadError<X> {
    /// The source failed.
    Source(X),
    /// The encoder refused.
    Compress(BrotliCompressError),
}

/// What one step of a reader came to.
#[derive(Copy, Clone, Debug, PartialEq, Eq, Structural)]
pub enum Step {
    /// This many bytes were delivered.
    Served(usize),
    /// A fragment was compressed; there may be output now.
    Again,
    /// The stream is complete and was delivered whole.
    End,
}

/// One read: how much room the source was given, and the bytes it delivered, or why
/// it failed.
pub struct Reading<X> {
    /// The room.
    pub room: int,
    /// What came of it.
    pub said: Result<Seq<u8>, X>,
}

/// What is held once some reads were made.
pub open spec fn gathered<X>(held: Seq<u8>, reads: Seq<Reading<X>>) -> Seq<u8>
    decreases reads.len(),
{
    if reads.len() == 0 {
        held
    } else {
        gathered(held, reads.drop_last()) + match reads.last().said {
            Ok(bytes) => bytes,
            Err(_) => Seq::empty(),
        }
    }
}

/// The source has come to its end: a read delivered nothing.
pub open spec fn at_end<X>(eof: bool, reads: Seq<Reading<X>>) -> bool {
    eof || reads.len() > 0 && reads.last().said == Ok::<Seq<u8>, X>(Seq::empty())
}

/// The source is read for as long as neither its end nor a failure has come and no
/// more than `limit` bytes are held, each time for up to one byte more than `limit`.
pub open spec fn read_in_turn<X>(
    held: Seq<u8>,
    eof: bool,
    limit: int,
    reads: Seq<Reading<X>>,
) -> bool
    decreases reads.len(),
{
    reads.len() > 0 ==> {
        let before = reads.drop_last();
        &&& read_in_turn(held, eof, limit, before)
        &&& !at_end(eof, before)
        &&& before.len() > 0 ==> before.last().said is Ok
        &&& gathered(held, before).len() <= limit
        &&& reads.last().room == limit + 1 - gathered(held, before).len()
        &&& reads.last().said matches Ok(bytes) ==> bytes.len() <= reads.last().room
    }
}

/// A source and the compressed form of what it delivers.
pub struct CompressorReader<T: Source, E> {
    /// The source.
    pub reader: T,
    /// What the encoder is built for.
    pub backend: Backend,
    /// How to compress.
    pub params: CompressParams,
    /// The encoder and how much it takes at once, once there is input to compress.
    pub encoder: Option<(E, usize)>,
    /// Input not compressed yet.
    pub input: Vec<u8>,
    /// The compressed form of the last fragment.
    pub output: Vec<u8>,
    /// How much of it was delivered.
    pub served: usize,
    /// Whether the source has come to its end.
    pub eof: bool,
    /// Whether the last fragment was compressed.
    pub ended: bool,
    /// The reads so far.
    pub reads: Ghost<Seq<Reading<T::Error>>>,
    /// Everything read.
    pub received: Ghost<Seq<u8>>,
    /// What was asked of the encoder, and what it answered.
    pub log: CallLog,
    /// Everything delivered.
    pub delivered: Ghost<Seq<u8>>,
}

impl<T: Source, E: BlockEncoder> CompressorReader<T, E> {
    /// The encoder is asked for full fragments, and in the end for what is left.
    pub open spec fn asks_in_order(&self) -> bool {
        match self.encoder {
            None => self.log.calls@.len() == 0,
            Some(held) => if self.ended {
                self.log.calls@ == calls::schedule(self.received@, held.1 as int)
            } else {
                &&& calls::only_blocks(self.log.calls@)
                &&& calls::full_so_far(self.log.handed(), held.1 as int, self.log.calls@)
                &&& self.log.calls@.len() > 0 ==> self.input@.len() > 0
            },
        }
    }

    /// The encoder was built for the stream and has answered the calls in order.
    pub open spec fn runs(&self, encoder: E) -> bool {
        exists|first: E| #[trigger] driver::ran_through(&self.log, first, encoder)
    }

    /// No byte is lost: what was read was handed on or is held, what the encoder
    /// answered was delivered or waits, and the last fragment ends the input.
    pub open spec fn wf(&self) -> bool {
        &&& self.served <= self.output@.len()
        &&& self.log.wf()
        &&& self.log.refused@ is None ==> self.log.refusing@ is None
        &&& self.log.refused@ is None ==> (self.encoder matches Some(held) ==> self.runs(held.0))
        &&& forall|i: int|
            0 <= i < self.reads@.len() ==> T::delivers(
                (#[trigger] self.reads@[i]).room,
                self.reads@[i].said,
            )
        &&& self.asks_in_order()
        &&& self.received@ == self.log.handed() + self.input@
        &&& self.log.made() == self.delivered@ + self.output@.skip(self.served as int)
        &&& self.ended ==> self.eof && self.input@.len() == 0
        &&& self.encoder matches Some(held) ==> 1 <= held.1 < usize::MAX && self.input@.len()
            <= held.1 + 1
        &&& self.encoder is None ==> self.input@.len() == 0 && !self.ended
    }

    /// Starts compressing what `reader` delivers.
    pub fn new(reader: T, backend: Backend, params: CompressParams) -> (source: Self)
        ensures
            source.wf(),
            source.reader == reader,
            source.backend == backend,
            source.params == params,
            source.encoder is None,
            source.served == source.output@.len(),
            source.reads@.len() == 0,
            source.received@.len() == 0,
            source.delivered@.len() == 0,
            source.log.calls@.len() == 0,
            source.log.refused@ is None,
            !source.eof,
            !source.ended,
    {
        let source = CompressorReader {
            reader,
            backend,
            params,
            encoder: None,
            input: Vec::new(),
            output: Vec::new(),
            served: 0,
            eof: false,
            ended: false,
            reads: Ghost(Seq::empty()),
            received: Ghost(Seq::empty()),
            log: CallLog::new(),
            delivered: Ghost(Seq::empty()),
        };
        proof {
            assert(source.received@ =~= source.log.handed() + source.input@);
            assert(source.log.made() =~= source.delivered@ + source.output@.skip(0));
        }
        source
    }

    /// Borrows the source.
    pub fn get_ref(&self) -> (reader: &T)
        ensures
            *reader == self.reader,
    {
        &self.reader
    }

    /// Delivers waiting output.
    fn serve(&mut self, buf: &mut [u8]) -> (count: usize)
        requires
            old(self).wf(),
        ensures
            final(self).wf(),
            *final(self) == (CompressorReader {
                served: final(self).served,
                delivered: final(self).delivered,
                ..*old(self)
            }),
            final(buf)@.len() == old(buf)@.len(),
            count <= final(buf)@.len(),
            count == final(buf)@.len() || final(self).served == final(self).output@.len(),
            count == final(self).served - old(self).served,
            final(buf)@.take(count as int) == old(self).output@.subrange(
                old(self).served as int,
                old(self).served + count,
            ),
            final(buf)@.skip(count as int) == old(buf)@.skip(count as int),
            final(self).delivered@ == old(self).delivered@ + final(buf)@.take(count as int),
    {
        let size: usize = self.output.len();
        let left: usize = size - self.served;
        let count: usize = if left < buf.len() {
            left
        } else {
            buf.len()
        };
        let top: usize = buf.len();
        let ghost held = self.output@.skip(self.served as int);
        let mut k: usize = 0;
        while k < count
            invariant
                k <= count <= buf@.len(),
                top == buf@.len(),
                top == old(buf)@.len(),
                self.served + count <= self.output@.len(),
                size == self.output@.len(),
                forall|i: int|
                    0 <= i < k ==> #[trigger] buf@[i] == self.output@[self.served + i],
                forall|i: int| k <= i < top ==> #[trigger] buf@[i] == old(buf)@[i],
            decreases count - k,
        {
            buf[k] = self.output[self.served + k];
            k += 1;
        }
        let ghost part = buf@.take(count as int);
        assert(part =~= held.take(count as int));
        assert(part =~= self.output@.subrange(self.served as int, self.served + count));
        assert(buf@.skip(count as int) =~= old(buf)@.skip(count as int));
        self.served = self.served + count;
        self.delivered = Ghost(self.delivered@ + part);
        proof {
            assert(held =~= held.take(count as int) + held.skip(count as int));
            assert(self.output@.skip(self.served as int) =~= held.skip(count as int));
            assert(self.log.made() =~= self.delivered@ + self.output@.skip(self.served as int));
        }
        count
    }
}

impl<T: Source, E: BlockEncoder> CompressorReader<T, E> {
    /// There is an encoder: the one there was, or one that was built for the stream.
    pub open spec fn equipped(&self, before: &Self) -> bool {
        &&& self.encoder matches Some(held) && match before.encoder {
            Some(earlier) => held.1 == earlier.1 && before.log.same_encoder(&self.log),
            None => self.log.start@ == Some(
                driver::started(before.params@, before.backend, 0, false),
            ) && self.log.limit@ == Some(held.1),
        }
    }

    /// There is no encoder: it could not be built, or takes no block at all.
    pub open spec fn unequipped(&self, before: &Self, error: BrotliCompressError) -> bool {
        &&& before.encoder is None
        &&& *self == (CompressorReader { log: self.log, ..*before })
        &&& self.log.calls == before.log.calls
        &&& self.log.answers == before.log.answers
        &&& before.log.but_refused(None, error, &self.log) && E::starts(
            driver::started(before.params@, before.backend, 0, false),
            Err(error),
        ) || {
            &&& error == BrotliCompressError::BufferOverflow
            &&& self.log.start@ == Some(
                driver::started(before.params@, before.backend, 0, false),
            )
            &&& self.log.limit@ == Some(0usize) || self.log.limit@ == Some(usize::MAX)
            &&& exists|built: E| #[trigger]
                E::starts(driver::started(before.params@, before.backend, 0, false), Ok(built))
                    && E::takes(built, self.log.limit@->0)
            &&& self.log.refused == before.log.refused
        }
    }

    /// The next fragment: as much as the encoder takes, and whether it is the last,
    /// which is so if no byte follows it.
    pub open spec fn fragment(gathered: Seq<u8>, limit: int) -> Call {
        if gathered.len() <= limit {
            Call::Block { bytes: gathered, is_last: true }
        } else {
            Call::Block { bytes: gathered.take(limit), is_last: false }
        }
    }

    /// Enough was read to tell the next fragment.
    pub open spec fn read_enough(&self, before: &Self) -> bool {
        let limit = (self.encoder->0).1 as int;
        let reads = self.reads_since(before);
        &&& before.reads@.is_prefix_of(self.reads@)
        &&& read_in_turn(before.input@, before.eof, limit, reads)
        &&& self.eof == at_end(before.eof, reads)
        &&& self.received@ == before.log.handed() + gathered(before.input@, reads)
        &&& self.eof || gathered(before.input@, reads).len() == limit + 1
    }

    /// The next fragment was read and compressed.
    pub open spec fn compressed_next(&self, before: &Self) -> bool {
        let limit = (self.encoder->0).1 as int;
        let whole = gathered(before.input@, self.reads_since(before));
        &&& self.equipped(before)
        &&& self.read_enough(before)
        &&& self.log.calls@ == before.log.calls@.push(Self::fragment(whole, limit))
        &&& self.log.answers@ == before.log.answers@.push(self.output@)
        &&& self.log.refused == before.log.refused
        &&& self.input@ == whole.skip(calls::bytes_of(Self::fragment(whole, limit)).len() as int)
        &&& self.ended == (whole.len() <= limit)
        &&& self.served == 0
    }

    /// The next fragment was read, and the encoder refused it.
    pub open spec fn refused_next(&self, before: &Self, error: BrotliCompressError) -> bool {
        let limit = (self.encoder->0).1 as int;
        let whole = gathered(before.input@, self.reads_since(before));
        &&& self.equipped(before)
        &&& self.read_enough(before)
        &&& self.log.calls == before.log.calls
        &&& self.log.answers == before.log.answers
        &&& self.log.refused@ == Some(error)
        &&& self.log.refusing@ == Some(Self::fragment(whole, limit))
        &&& before.log.refused@ is None ==> driver::went_through::<E>(&self.log)
        &&& self.input@ == whole
        &&& !self.ended
    }

    /// Reading on towards the next fragment failed.
    pub open spec fn cut_short(&self, before: &Self, error: T::Error) -> bool {
        &&& self.equipped(before)
        &&& self.read_on(before, (self.encoder->0).1 as int)
        &&& self.source_failed(before, error)
        &&& self.log.calls == before.log.calls
        &&& self.log.answers == before.log.answers
        &&& self.log.refused == before.log.refused
        &&& !self.ended
    }
}

/// The encoder of a reader is built once.
pub open spec fn has_encoder<T: Source, E>(
    before: &CompressorReader<T, E>,
    after: &CompressorReader<T, E>,
) -> bool {
    after.encoder is Some && (before.encoder is Some ==> after.encoder == before.encoder)
}

impl<T: Source, E: BlockEncoder> CompressorReader<T, E> {
    /// Builds the encoder on first use, and returns how much it takes at once.
    fn prepare(&mut self) -> (result: Result<usize, BrotliCompressError>)
        requires
            old(self).wf(),
        ensures
            final(self).wf(),
            *final(self) == (CompressorReader {
                encoder: final(self).encoder,
                log: final(self).log,
                ..*old(self)
            }),
            final(self).log.calls == old(self).log.calls,
            final(self).log.answers == old(self).log.answers,
            old(self).encoder is Some ==> result is Ok && *final(self) == *old(self),
            match result {
                Ok(limit) => {
                    &&& has_encoder(old(self), final(self))
                    &&& limit == (final(self).encoder->0).1
                    &&& old(self).encoder is None ==> final(self).log.start@ == Some(
                        driver::started(old(self).params@, old(self).backend, 0, false),
                    ) && final(self).log.limit@ == Some(limit)
                },
                Err(error) => final(self).unequipped(old(self), error),
            },
            result is Ok ==> final(self).equipped(old(self)) && final(self).log.refused
                == old(self).log.refused,
    {
        match &self.encoder {
            Some(held) => return Ok(held.1),
            None => {},
        }
        let hint: usize = resolve_size_hint(&self.params, 0);
        let built: Result<E, BrotliCompressError> = self.log.ask_for_encoder(
            self.backend,
            &self.params,
            hint,
        );
        match built {
            Err(error) => Err(error),
            Ok(encoder) => {
                let limit: usize = self.log.ask_limit(&encoder);
                if limit < 1 || limit == usize::MAX {
                    return Err(BrotliCompressError::BufferOverflow);
                }
                let ghost built_encoder = encoder;
                self.encoder = Some((encoder, limit));
                proof {
                    if self.log.refused@ is None {
                        assert(driver::ran_through(&self.log, built_encoder, built_encoder));
                    }
                    calls::lemma_nothing_asked(limit as int);
                    assert(self.log.calls@ =~= Seq::empty());
                }
                Ok(limit)
            },
        }
    }

    /// Reads once, and notes what came of it.
    fn read_once(&mut self, room: usize) -> (result: Result<Vec<u8>, T::Error>)
        ensures
            *final(self) == (CompressorReader {
                reader: final(self).reader,
                reads: final(self).reads,
                ..*old(self)
            }),
            result matches Ok(bytes) ==> bytes@.len() <= room,
            T::delivers(final(self).reads@.last().room, final(self).reads@.last().said),
            final(self).reads@ == old(self).reads@.push(
                Reading {
                    room: room as int,
                    said: match result {
                        Ok(bytes) => Ok(bytes@),
                        Err(error) => Err(error),
                    },
                },
            ),
    {
        let mut fresh: Vec<u8> = vec![0u8; room];
        match self.reader.read(fresh.as_mut_slice()) {
            Err(error) => {
                self.reads = Ghost(
                    self.reads@.push(Reading { room: room as int, said: Err(error) }),
                );
                Err(error)
            },
            Ok(count) => {
                let taken: usize = if count > room {
                    room
                } else {
                    count
                };
                let ghost whole = fresh@;
                fresh.truncate(taken);
                assert(fresh@ =~= filled(whole, count));
                self.reads = Ghost(
                    self.reads@.push(Reading { room: room as int, said: Ok(fresh@) }),
                );
                Ok(fresh)
            },
        }
    }

    /// The reads made since an earlier moment.
    pub open spec fn reads_since(&self, before: &Self) -> Seq<Reading<T::Error>> {
        self.reads@.skip(before.reads@.len() as int)
    }

    /// A read made since an earlier moment failed, and was the last.
    pub open spec fn source_failed(&self, before: &Self, error: T::Error) -> bool {
        &&& self.reads_since(before).len() > 0
        &&& self.reads@.last().said == Err::<Seq<u8>, _>(error)
    }

    /// Reads were made as they were due, and what they delivered is held.
    pub open spec fn read_on(&self, before: &Self, limit: int) -> bool {
        let reads = self.reads_since(before);
        &&& before.reads@.is_prefix_of(self.reads@)
        &&& read_in_turn(before.input@, before.eof, limit, reads)
        &&& self.input@ == gathered(before.input@, reads)
        &&& self.eof == at_end(before.eof, reads)
    }

    /// Reads one byte more than a fragment, so that the last one can be told.
    fn fill_input(&mut self, limit: usize) -> (result: Result<(), T::Error>)
        requires
            old(self).wf(),
            old(self).encoder matches Some(held) && held.1 == limit,
        ensures
            final(self).wf(),
            *final(self) == (CompressorReader {
                reader: final(self).reader,
                input: final(self).input,
                eof: final(self).eof,
                reads: final(self).reads,
                received: final(self).received,
                ..*old(self)
            }),
            old(self).input@.is_prefix_of(final(self).input@),
            final(self).read_on(old(self), limit as int),
            old(self).eof || old(self).input@.len() > limit ==> result is Ok && *final(self)
                == *old(self),
            match result {
                Ok(_) => final(self).eof || final(self).input@.len() == limit + 1,
                Err(error) => final(self).source_failed(old(self), error),
            },
    {
        proof {
            assert(self.input@.is_prefix_of(self.input@));
            assert(self.reads_since(old(self)) =~= Seq::empty());
        }
        while !self.eof && self.input.len() <= limit
            invariant
                self.wf(),
                self.encoder matches Some(held) && held.1 == limit,
                *self == (CompressorReader {
                    reader: self.reader,
                    input: self.input,
                    eof: self.eof,
                    reads: self.reads,
                    received: self.received,
                    ..*old(self)
                }),
                old(self).input@.is_prefix_of(self.input@),
                self.read_on(old(self), limit as int),
                self.reads_since(old(self)).len() > 0 ==> self.reads_since(old(self)).last().said is Ok,
                old(self).eof || old(self).input@.len() > limit ==> *self == *old(self),
            decreases
                limit + 1 - self.input@.len(),
                if self.eof {
                    0int
                } else {
                    1
                },
        {
            let ghost earlier = self.reads_since(old(self));
            let room: usize = limit + 1 - self.input.len();
            let ghost held = self.reads@;
            let outcome = self.read_once(room);
            proof {
                assert forall|i: int| 0 <= i < self.reads@.len() implies T::delivers(
                    (#[trigger] self.reads@[i]).room,
                    self.reads@[i].said,
                ) by {
                    if i < held.len() {
                        assert(self.reads@[i] == held[i]);
                    }
                }
                assert(self.reads_since(old(self)).drop_last() =~= earlier);
                assert(self.reads_since(old(self)).last() == self.reads@.last());
            }
            match outcome {
                Err(error) => {
                    assert(gathered(old(self).input@, self.reads_since(old(self)))
                        =~= self.input@);
                    return Err(error);
                },
                Ok(fresh) => {
                    if fresh.len() == 0 {
                        self.eof = true;
                        assert(fresh@ =~= Seq::empty());
                        assert(gathered(old(self).input@, self.reads_since(old(self)))
                            =~= self.input@);
                    } else {
                        let ghost before = self.input@;
                        self.input.extend_from_slice(fresh.as_slice());
                        self.received = Ghost(self.received@ + fresh@);
                        proof {
                            assert(self.input@ =~= before + fresh@);
                            assert(self.received@ =~= self.log.handed() + self.input@);
                            assert(self.input@.take(old(self).input@.len() as int)
                                =~= old(self).input@);
                        }
                    }
                },
            }
        }
        Ok(())
    }

    /// Compresses the next fragment, or says that the last one was compressed.
    ///
    /// One byte past a fragment tells a full fragment from the last one.
    fn refill(&mut self) -> (result: Result<bool, ReadError<T::Error>>)
        requires
            old(self).wf(),
            old(self).served == old(self).output@.len(),
        ensures
            final(self).wf(),
            final(self).delivered@ == old(self).delivered@,
            old(self).ended && old(self).encoder is Some ==> result == Ok::<
                bool,
                ReadError<T::Error>,
            >(false) && *final(self) == *old(self),
            match result {
                Ok(false) => old(self).ended && *final(self) == *old(self),
                Ok(true) => !old(self).ended && final(self).compressed_next(old(self)),
                Err(ReadError::Compress(error)) => !old(self).ended && (final(self).unequipped(
                    old(self),
                    error,
                ) || final(self).refused_next(old(self), error)),
                Err(ReadError::Source(error)) => !old(self).ended && final(self).cut_short(
                    old(self),
                    error,
                ),
            },
    {
        let limit: usize = match self.prepare() {
            Err(error) => return Err(ReadError::Compress(error)),
            Ok(limit) => limit,
        };
        if self.ended {
            return Ok(false);
        }
        match self.fill_input(limit) {
            Err(error) => return Err(ReadError::Source(error)),
            Ok(_) => {},
        }
        let is_last: bool = self.input.len() <= limit;
        let take: usize = if self.input.len() <= limit {
            self.input.len()
        } else {
            limit
        };
        let ghost log = self.log;
        let ghost whole_input = self.input@;
        proof {
            assert(whole_input.take(whole_input.len() as int) =~= whole_input);
            assert(old(self).log.handed() + whole_input =~= self.received@);
        }
        let held = self.encoder.take();
        match held {
            None => Err(ReadError::Compress(BrotliCompressError::BufferOverflow)),
            Some((mut encoder, size)) => {
                let ghost held_encoder = encoder;
                let outcome = self.log.ask_block(
                    &mut encoder,
                    &self.input.as_slice()[0..take],
                    is_last,
                );
                let ghost left = encoder;
                self.encoder = Some((encoder, size));
                proof {
                    if log.refused@ is None {
                        let first = choose|first: E| #[trigger]
                            driver::ran_through(&log, first, held_encoder);
                        assert(driver::ran_through(&log, first, held_encoder));
                        match &outcome {
                            Ok(block) => {
                                calls::lemma_ran_on(
                                    calls::of_blocks::<E>(),
                                    first,
                                    log.calls@,
                                    log.answers@,
                                    held_encoder,
                                    Call::Block {
                                        bytes: self.input@.subrange(0, take as int),
                                        is_last,
                                    },
                                    block@,
                                    left,
                                );
                                assert(driver::ran_through(&self.log, first, left));
                            },
                            Err(_) => {
                                assert(calls::steps_to(
                                    calls::of_blocks::<E>(),
                                    held_encoder,
                                    self.log.refusing@->0,
                                    Err(self.log.refused@->0),
                                    left,
                                ));
                                assert(self.log.refused_by(
                                    calls::of_blocks::<E>(),
                                    held_encoder,
                                ));
                                assert(driver::ran_through(&self.log, first, held_encoder));
                            },
                        }
                    }
                }
                match outcome {
                    Err(error) => Err(ReadError::Compress(error)),
                    Ok(block) => {
                        let ghost whole = self.input@;
                        let ghost part = whole.take(take as int);
                        let total: usize = self.input.len();
                        let mut rest: Vec<u8> = Vec::new();
                        rest.extend_from_slice(&self.input.as_slice()[take..total]);
                        proof {
                            assert(whole.subrange(0, take as int) =~= part);
                            assert(rest@ =~= whole.skip(take as int));
                            assert(whole =~= part + rest@);
                        }
                        self.input = rest;
                        assert(self.received@ =~= self.log.handed() + self.input@);
                        self.output = block;
                        self.served = 0;
                        self.ended = is_last;
                        proof {
                            assert(self.output@.skip(0) =~= block@);
                            assert(self.log.made() =~= self.delivered@ + self.output@.skip(0));
                            if is_last {
                                calls::lemma_the_end(
                                    log.calls@,
                                    log.handed(),
                                    limit as int,
                                    part,
                                );
                                assert(self.received@ =~= log.handed() + part);
                                calls::lemma_cut_is_schedule(
                                    self.received@,
                                    limit as int,
                                    self.log.calls@,
                                );
                            } else {
                                calls::lemma_one_more(
                                    log.calls@,
                                    log.handed(),
                                    limit as int,
                                    part,
                                );
                            }
                        }
                        Ok(true)
                    },
                }
            },
        }
    }

    /// Moves the stream forward by one step: delivers waiting output, or compresses
    /// the next fragment.
    pub fn step(&mut self, buf: &mut [u8]) -> (result: Result<Step, ReadError<T::Error>>)
        requires
            old(self).wf(),
        ensures
            final(self).wf(),
            final(buf)@.len() == old(buf)@.len(),
            old(buf)@.len() == 0 ==> result == Ok::<Step, ReadError<T::Error>>(Step::Served(0))
                && *final(self) == *old(self),
            old(buf)@.len() > 0 && old(self).served < old(self).output@.len() ==> result is Ok
                && result->Ok_0 is Served && result->Ok_0->Served_0 > 0,
            match result {
                Ok(Step::Served(count)) => {
                    let waiting = old(self).output@.skip(old(self).served as int);
                    &&& count == if waiting.len() < old(buf)@.len() {
                        waiting.len() as int
                    } else {
                        old(buf)@.len() as int
                    }
                    &&& count > 0 || old(buf)@.len() == 0
                    &&& final(buf)@ == waiting.take(count as int) + old(buf)@.skip(count as int)
                    &&& *final(self) == (CompressorReader {
                        served: (old(self).served + count) as usize,
                        delivered: final(self).delivered,
                        ..*old(self)
                    })
                    &&& final(self).delivered@ == old(self).delivered@ + final(buf)@.take(
                        count as int,
                    )
                },
                Ok(Step::Again) => {
                    &&& final(self).delivered@ == old(self).delivered@
                    &&& final(buf)@ == old(buf)@
                    &&& !old(self).ended
                    &&& final(self).compressed_next(old(self))
                },
                Ok(Step::End) => {
                    &&& final(self).ended
                    &&& final(buf)@ == old(buf)@
                    &&& *final(self) == *old(self)
                    &&& final(self).delivered@ == final(self).log.made()
                    &&& final(self).encoder matches Some(held) && final(self).log.calls@
                        == calls::schedule(final(self).received@, held.1 as int)
                },
                Err(error) => {
                    &&& final(self).delivered@ == old(self).delivered@
                    &&& final(buf)@ == old(buf)@
                    &&& !old(self).ended
                    &&& match error {
                        ReadError::Source(error) => final(self).cut_short(old(self), error),
                        ReadError::Compress(error) => final(self).unequipped(old(self), error)
                            || final(self).refused_next(old(self), error),
                    }
                },
            },
    {
        if buf.len() == 0 {
            proof {
                let waiting = self.output@.skip(self.served as int);
                assert(self.delivered@ + buf@.take(0) =~= self.delivered@);
                assert(buf@ =~= waiting.take(0) + buf@.skip(0));
            }
            return Ok(Step::Served(0));
        }
        if self.served < self.output.len() {
            let ghost waiting = self.output@.skip(self.served as int);
            let count: usize = self.serve(buf);
            proof {
                assert(buf@.take(count as int) =~= waiting.take(count as int));
                assert(buf@ =~= buf@.take(count as int) + buf@.skip(count as int));
            }
            return Ok(Step::Served(count));
        }
        match self.refill() {
            Err(error) => Err(error),
            Ok(true) => Ok(Step::Again),
            Ok(false) => {
                proof {
                    assert(self.output@.skip(self.served as int) =~= Seq::empty());
                    assert(self.delivered@ + Seq::<u8>::empty() =~= self.delivered@);
                }
                Ok(Step::End)
            },
        }
    }
}

} // verus!
