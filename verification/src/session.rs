//! Incremental streams: input is staged, encoded a block at a time, and output
//! that does not fit waits for the next call.
use vstd::prelude::*;

use crate::calls;
use crate::calls::{Call, CallLog};
use crate::config::BrotliCompressError;

verus! {

/// The last logical position a stream may reach.
pub const MAX_STREAM_POSITION: u64 = 0x7FFF_FFFF_FFFF_FFFF;

/// How much input a stream will carry, when that is known in advance.
#[derive(Copy, Clone, Debug, PartialEq, Eq, Hash, Structural)]
pub enum InputSize {
    /// How much input is coming is not known.
    Unknown,
    /// The stream will carry exactly this many bytes.
    Exact(u64),
}

impl InputSize {
    /// Returns the size hint the encoders choose their match finder by.
    ///
    /// An unknown size is zero; one wider than the address space is as wide as
    /// that.
    pub fn hint(self) -> (hint: usize)
        ensures
            hint == match self {
                InputSize::Unknown => 0,
                InputSize::Exact(size) => if size > usize::MAX {
                    usize::MAX as int
                } else {
                    size as int
                },
            },
    {
        match self {
            InputSize::Unknown => 0,
            InputSize::Exact(size) => if size > usize::MAX as u64 {
                usize::MAX
            } else {
                size as usize
            },
        }
    }
}

impl Default for InputSize {
    /// Nothing is known.
    fn default() -> (size: Self)
        ensures
            size == InputSize::Unknown,
    {
        InputSize::Unknown
    }
}

impl From<u64> for InputSize {
    /// Declares an exactly known input size.
    fn from(value: u64) -> (size: Self) {
        InputSize::Exact(value)
    }
}

impl vstd::std_specs::convert::FromSpecImpl<u64> for InputSize {
    open spec fn obeys_from_spec() -> bool {
        true
    }

    open spec fn from_spec(value: u64) -> Self {
        InputSize::Exact(value)
    }
}

/// What a single stream knows about itself.
#[derive(Copy, Clone, Debug, PartialEq, Eq, Hash, Structural)]
pub struct StreamConfig {
    /// How much input the stream will carry.
    pub size: InputSize,
    /// Where the stream begins, logically.
    pub offset: u64,
}

impl StreamConfig {
    /// Sets how much input the stream will carry.
    #[must_use]
    pub fn with_input_size(self, input_size: InputSize) -> (config: Self)
        ensures
            config == (StreamConfig { size: input_size, ..self }),
    {
        StreamConfig { size: input_size, offset: self.offset }
    }

    /// Returns how much input the stream will carry.
    #[must_use]
    pub fn input_size(&self) -> (size: InputSize)
        ensures
            size == self.size,
    {
        self.size
    }

    /// Sets where the stream begins, logically.
    ///
    /// A stream that does not begin at zero continues another: it has no header,
    /// and is not decodable by itself.
    #[must_use]
    pub fn with_stream_offset(self, stream_offset: u64) -> (config: Self)
        ensures
            config == (StreamConfig { offset: stream_offset, ..self }),
    {
        StreamConfig { size: self.size, offset: stream_offset }
    }

    /// Returns where the stream begins, logically.
    #[must_use]
    pub fn stream_offset(&self) -> (offset: u64)
        ensures
            offset == self.offset,
    {
        self.offset
    }
}

impl Default for StreamConfig {
    /// A stream of unknown size that begins at zero.
    fn default() -> (config: Self)
        ensures
            config == (StreamConfig { size: InputSize::Unknown, offset: 0 }),
    {
        StreamConfig { size: InputSize::Unknown, offset: 0 }
    }
}

impl From<InputSize> for StreamConfig {
    /// Builds a stream configuration from its size alone, at offset zero.
    fn from(value: InputSize) -> (config: Self) {
        StreamConfig { size: value, offset: 0 }
    }
}

impl vstd::std_specs::convert::FromSpecImpl<InputSize> for StreamConfig {
    open spec fn obeys_from_spec() -> bool {
        true
    }

    open spec fn from_spec(value: InputSize) -> Self {
        StreamConfig { size: value, offset: 0 }
    }
}

/// What a call should do with the stream.
#[derive(Copy, Clone, Debug, PartialEq, Eq, Hash, Structural)]
pub enum Operation {
    /// Take input and emit whatever completes; keep gathering otherwise.
    Process,
    /// Make everything accepted so far decodable, without ending the stream.
    Flush,
    /// Emit everything left and end the stream.
    Finish,
}

impl Default for Operation {
    /// Keeps the stream going.
    fn default() -> (operation: Self)
        ensures
            operation == Operation::Process,
    {
        Operation::Process
    }
}

/// What a session needs next.
#[derive(Copy, Clone, Debug, PartialEq, Eq, Hash, Structural)]
pub enum EncoderStatus {
    /// More source bytes are needed before anything else can happen.
    NeedsInput,
    /// Encoded bytes are waiting; call again with room to put them.
    NeedsOutput,
    /// The stream is complete and the final bytes have been delivered.
    Finished,
}

/// What one call did.
#[derive(Copy, Clone, Debug, PartialEq, Eq, Hash, Structural)]
pub struct Progress {
    /// How many bytes were taken from the caller's input.
    pub consumed: usize,
    /// How many bytes were written into the caller's output.
    pub produced: usize,
    /// What the session needs next.
    pub status: EncoderStatus,
}

/// Why a session could not go on.
#[derive(Copy, Clone, Debug, PartialEq, Eq)]
#[non_exhaustive]
pub enum EncodeError {
    /// What was attempted is not allowed any more.
    InvalidState {
        /// What was attempted.
        attempted: &'static str,
    },
    /// The input would take the stream past the last logical position.
    StreamPositionOverflow {
        /// Where the stream is.
        position: u64,
        /// How much input was offered.
        input_bytes: u64,
    },
    /// Something that always holds does not.
    InternalInvariant {
        /// What does not hold.
        detail: &'static str,
    },
    /// The encoder refused.
    Compress(BrotliCompressError),
}

/// Where a session is in the life of its stream.
#[derive(Copy, Clone, Debug, PartialEq, Eq, Structural)]
pub enum Phase {
    /// Taking input.
    Open,
    /// A flush has been emitted and no input has arrived since.
    Flushed,
    /// The final meta-block has been emitted.
    Finished,
    /// An error ended the stream; nothing more may be encoded.
    Failed,
}

/// What was made of a session so far, as far as the cut of its input depends on it.
pub struct Course {
    /// The stream continues another.
    pub continued: bool,
    /// A flush was asked for.
    pub flushed: bool,
    /// The last call offered more input than was taken.
    pub left: bool,
    /// Input that was offered and not taken was not offered again.
    pub broken_off: bool,
}

impl Course {
    /// The course once a call offers so much input.
    pub open spec fn offered(self, len: int, operation: Operation) -> Course {
        Course {
            flushed: self.flushed || operation == Operation::Flush,
            left: len > 0,
            broken_off: self.broken_off || self.left && len == 0,
            ..self
        }
    }

    /// The course after a call that took so much of the input it was offered.
    pub open spec fn after(self, len: int, consumed: int, operation: Operation) -> Course {
        Course { left: consumed < len, ..self.offered(len, operation) }
    }

    /// The stream starts anew, was never flushed, and was given its input in order.
    pub open spec fn uninterrupted(self) -> bool {
        !self.continued && !self.flushed && !self.broken_off
    }
}

/// What a session needs of an encoder.
///
/// A kind of encoder says nothing but how it can answer, and what it is afterwards.
pub trait StreamEncoder: Sized {
    /// An encoder of this kind can answer a call so, and become another one.
    open spec fn does(
        before: Self,
        call: Call,
        answer: Result<Seq<u8>, BrotliCompressError>,
        after: Self,
    ) -> bool {
        arbitrary()
    }

    /// Compresses one block.
    fn encode_block(&mut self, input: &[u8], is_last: bool) -> (result: Result<
        Vec<u8>,
        BrotliCompressError,
    >)
        ensures
            Self::does(
                *old(self),
                Call::Block { bytes: input@, is_last },
                calls::said(result),
                *final(self),
            ),
    ;

    /// Compresses one block and realigns the stream, leaving it open.
    fn flush_block(&mut self, input: &[u8]) -> (result: Result<Vec<u8>, BrotliCompressError>)
        ensures
            Self::does(
                *old(self),
                Call::Flush { bytes: input@ },
                calls::said(result),
                *final(self),
            ),
    ;
}

/// One incremental stream.
pub struct EncoderSession<E> {
    /// The encoder, unless the session lost it.
    pub encoder: Option<E>,
    /// Input gathered for the next block.
    pub staging: Vec<u8>,
    /// Output that did not fit.
    pub pending: Vec<u8>,
    /// How much of it was handed out since.
    pub served: usize,
    /// Largest input one encoder call accepts.
    pub limit: usize,
    /// Where the stream is.
    pub phase: Phase,
    /// How far the stream has come, logically.
    pub logical_position: u64,
    /// Whether the stream continues another and has not emitted its first flush.
    pub flint: bool,
    /// All input accepted.
    pub accepted: Ghost<Seq<u8>>,
    /// What was asked of the encoder, and what it answered.
    pub log: CallLog,
    /// All output delivered.
    pub delivered: Ghost<Seq<u8>>,
    /// What was made of the session.
    pub course: Ghost<Course>,
    /// The encoder as it was when the stream started.
    pub first: Ghost<E>,
}

impl<E: StreamEncoder> EncoderSession<E> {
    /// How much input the next block takes.
    pub open spec fn block_limit(&self) -> int {
        if self.flint {
            2
        } else {
            self.limit as int
        }
    }

    /// No byte is lost: what was accepted was handed on or is staged, and what the
    /// encoder answered was delivered or is pending.
    pub open spec fn keeps_every_byte(&self) -> bool {
        &&& 2 <= self.limit
        &&& self.staging@.len() <= self.block_limit()
        &&& self.served <= self.pending@.len()
        &&& self.logical_position <= MAX_STREAM_POSITION
        &&& self.log.wf()
        &&& self.encoder matches Some(encoder) ==> self.log.ran_by(
            calls::of_streams::<E>(),
            self.first@,
            encoder,
        )
        &&& self.log.refused@ is None
        &&& self.accepted@ == self.log.handed() + self.staging@
        &&& self.log.made() == self.delivered@ + self.waiting()
    }

    /// Until the stream is flushed, it is asked for full blocks, and in the end for
    /// what is left.
    pub open spec fn asks_in_order(&self) -> bool {
        calls::only_blocks(self.log.calls@) ==> if self.phase == Phase::Finished {
            calls::cut_up(self.accepted@, self.limit as int, self.log.calls@)
        } else {
            calls::full_so_far(self.log.handed(), self.limit as int, self.log.calls@)
        }
    }

    /// The block marked as the last is asked for once, where the stream is ended.
    pub open spec fn ends_once(&self) -> bool {
        &&& forall|i: int|
            0 <= i < self.log.calls@.len() ==> (#[trigger] closes(self.log.calls@[i]) <==> self.phase
                == Phase::Finished && i == self.log.calls@.len() - 1)
        &&& self.phase == Phase::Finished ==> self.log.calls@.len() > 0 && self.staging@.len() == 0
    }

    /// Without a flush nothing but blocks is asked for, and a block that is not the
    /// last is followed by something.
    pub open spec fn keeps_course(&self) -> bool {
        let course = self.course@;
        &&& self.phase == Phase::Flushed ==> self.staging@.len() == 0
        &&& !course.continued ==> !self.flint
        &&& !course.continued && !course.flushed ==> calls::only_blocks(self.log.calls@)
        &&& course.uninterrupted() ==> if self.phase == Phase::Finished {
            calls::bytes_of(self.log.calls@.last()).len() > 0 || self.accepted@.len() == 0
        } else {
            self.staging@.len() > 0 || self.log.calls@.len() == 0 || course.left
        }
    }

    /// No byte is lost, and the encoder is asked for the blocks in order.
    pub open spec fn wf(&self) -> bool {
        &&& self.keeps_every_byte()
        &&& self.asks_in_order()
        &&& self.ends_once()
        &&& self.keeps_course()
    }

    /// The output waiting to be delivered.
    pub open spec fn waiting(&self) -> Seq<u8> {
        self.pending@.skip(self.served as int)
    }

    /// A stream that was given nothing yet.
    pub open spec fn is_fresh(&self, encoder: E, limit: usize, stream: StreamConfig) -> bool {
        &&& self.phase == Phase::Open
        &&& self.encoder == Some(encoder)
        &&& self.first@ == encoder
        &&& self.limit == limit
        &&& self.logical_position == stream.offset
        &&& self.flint == (stream.offset != 0)
        &&& self.staging@.len() == 0
        &&& self.accepted@ == Seq::<u8>::empty()
        &&& self.delivered@ == Seq::<u8>::empty()
        &&& self.waiting().len() == 0
        &&& self.log.calls@.len() == 0
        &&& self.course@ == (Course {
            continued: stream.offset != 0,
            flushed: false,
            left: false,
            broken_off: false,
        })
    }

    /// Starts a stream.
    pub fn new(encoder: E, limit: usize, stream: StreamConfig) -> (session: Self)
        requires
            2 <= limit,
            stream.offset <= MAX_STREAM_POSITION,
        ensures
            session.wf(),
            session.is_fresh(encoder, limit, stream),
    {
        let ghost first = encoder;
        let session = EncoderSession {
            encoder: Some(encoder),
            staging: Vec::new(),
            pending: Vec::new(),
            served: 0,
            limit,
            phase: Phase::Open,
            logical_position: stream.stream_offset(),
            flint: stream.stream_offset() != 0,
            accepted: Ghost(Seq::empty()),
            log: CallLog::new(),
            delivered: Ghost(Seq::empty()),
            course: Ghost(
                Course {
                    continued: stream.offset != 0,
                    flushed: false,
                    left: false,
                    broken_off: false,
                },
            ),
            first: Ghost(first),
        };
        proof {
            assert(session.accepted@ =~= session.log.handed() + session.staging@);
            assert(session.log.made() =~= session.delivered@ + session.waiting());
            calls::lemma_nothing_asked(limit as int);
            assert(session.log.calls@ =~= Seq::empty());
        }
        session
    }

    /// Returns whether the stream has been ended and delivered.
    #[must_use]
    pub fn is_finished(&self) -> (finished: bool)
        requires
            self.wf() || self.phase == Phase::Failed,
        ensures
            finished == (self.phase == Phase::Finished && self.waiting().len() == 0),
    {
        matches!(self.phase, Phase::Finished) && self.served == self.pending.len()
    }

    /// Moves waiting output into `output` from `produced` on, and returns how far
    /// that is filled then.
    fn drain_pending(&mut self, output: &mut [u8], produced: usize) -> (filled: usize)
        requires
            old(self).wf(),
            produced <= old(output)@.len(),
        ensures
            final(self).wf(),
            *final(self) == (EncoderSession {
                served: final(self).served,
                delivered: final(self).delivered,
                ..*old(self)
            }),
            produced <= filled <= final(output)@.len(),
            final(output)@.len() == old(output)@.len(),
            final(output)@.take(produced as int) == old(output)@.take(produced as int),
            final(output)@.skip(filled as int) == old(output)@.skip(filled as int),
            final(self).delivered@ == old(self).delivered@ + final(output)@.subrange(
                produced as int,
                filled as int,
            ),
            final(self).waiting().len() > 0 ==> filled == final(output)@.len(),
            old(self).waiting().len() == 0 ==> *final(self) == *old(self) && filled == produced
                && final(output)@ == old(output)@,
    {
        let held_bytes: usize = self.pending.len();
        let left: usize = held_bytes - self.served;
        let room: usize = output.len() - produced;
        let count: usize = if left < room {
            left
        } else {
            room
        };
        let size: usize = output.len();
        let ghost before = output@;
        let ghost held = self.waiting();
        let mut k: usize = 0;
        while k < count
            invariant
                k <= count,
                size == output@.len(),
                produced + count <= output@.len(),
                self.served + count <= self.pending@.len(),
                held_bytes == self.pending@.len(),
                output@.len() == before.len(),
                forall|i: int|
                    0 <= i < produced || produced + k <= i < output@.len() ==> #[trigger] output@[i]
                        == before[i],
                forall|i: int|
                    produced <= i < produced + k ==> #[trigger] output@[i] == self.pending@[
                    self.served + i - produced],
            decreases count - k,
        {
            output[produced + k] = self.pending[self.served + k];
            k += 1;
        }
        let ghost part = output@.subrange(produced as int, produced + count);
        proof {
            assert(part =~= held.take(count as int));
            assert(output@.take(produced as int) =~= before.take(produced as int));
            assert(output@.skip(produced + count) =~= before.skip(produced + count));
        }
        self.served = self.served + count;
        self.delivered = Ghost(self.delivered@ + part);
        proof {
            assert(self.waiting() =~= held.skip(count as int));
            assert(held =~= held.take(count as int) + held.skip(count as int));
            assert(self.delivered@ + self.waiting() =~= old(self).delivered@ + held);
            if held.len() == 0 {
                assert(self.delivered@ =~= old(self).delivered@);
                assert(output@ =~= before);
            }
        }
        produced + count
    }

    /// Takes an answer of the encoder: as much as fits goes into `output`, the rest
    /// waits. Returns how far `output` is filled then.
    fn deliver(&mut self, bytes: Vec<u8>, output: &mut [u8], produced: usize) -> (filled: usize)
        requires
            old(self).waiting().len() == 0,
            old(self).served <= old(self).pending@.len(),
            produced <= old(output)@.len(),
            old(self).log.made() == old(self).delivered@ + bytes@,
        ensures
            *final(self) == (EncoderSession {
                pending: final(self).pending,
                served: final(self).served,
                delivered: final(self).delivered,
                ..*old(self)
            }),
            final(self).served <= final(self).pending@.len(),
            final(self).log.made() == final(self).delivered@ + final(self).waiting(),
            produced <= filled <= final(output)@.len(),
            final(output)@.len() == old(output)@.len(),
            final(output)@.take(produced as int) == old(output)@.take(produced as int),
            final(output)@.skip(filled as int) == old(output)@.skip(filled as int),
            final(self).delivered@ == old(self).delivered@ + final(output)@.subrange(
                produced as int,
                filled as int,
            ),
            final(self).waiting().len() > 0 ==> filled == final(output)@.len(),
    {
        let room: usize = output.len() - produced;
        let direct: usize = if bytes.len() < room {
            bytes.len()
        } else {
            room
        };
        let size: usize = output.len();
        let ghost before = output@;
        let mut k: usize = 0;
        while k < direct
            invariant
                k <= direct <= bytes@.len(),
                size == output@.len(),
                produced + direct <= output@.len(),
                output@.len() == before.len(),
                forall|i: int|
                    0 <= i < produced || produced + k <= i < output@.len() ==> #[trigger] output@[i]
                        == before[i],
                forall|i: int|
                    produced <= i < produced + k ==> #[trigger] output@[i] == bytes@[i - produced],
            decreases direct - k,
        {
            output[produced + k] = bytes[k];
            k += 1;
        }
        let ghost part = output@.subrange(produced as int, produced + direct);
        proof {
            assert(part =~= bytes@.take(direct as int));
            assert(output@.take(produced as int) =~= before.take(produced as int));
            assert(output@.skip(produced + direct) =~= before.skip(produced + direct));
        }
        self.delivered = Ghost(self.delivered@ + part);
        if direct < bytes.len() {
            self.pending.clear();
            self.pending.extend_from_slice(&bytes.as_slice()[direct..bytes.len()]);
            self.served = 0;
            assert(self.waiting() =~= bytes@.skip(direct as int));
        } else {
            assert(self.waiting() =~= Seq::empty());
        }
        assert(self.log.made() =~= self.delivered@ + self.waiting());
        produced + direct
    }
}

/// What happened to the caller's output.
pub open spec fn filled_to<E: StreamEncoder>(
    before: &EncoderSession<E>,
    after: &EncoderSession<E>,
    output: Seq<u8>,
    filled: int,
) -> bool {
    &&& 0 <= filled <= output.len()
    &&& after.delivered@ == before.delivered@ + output.take(filled)
    &&& after.waiting().len() > 0 ==> filled == output.len()
}

/// What encoding or flushing a block asks.
pub open spec fn asked(how: Option<bool>, bytes: Seq<u8>) -> Call {
    match how {
        Some(is_last) => Call::Block { bytes, is_last },
        None => Call::Flush { bytes },
    }
}

/// The call asks for the block marked as the last.
pub open spec fn closes(call: Call) -> bool {
    call matches Call::Block { is_last, .. } && is_last
}

/// The calls from one on are those of one step: where a continued stream is opened, the
/// flush of its first two bytes; full blocks, none of them the last; and where the step
/// reaches its end, the flush or the last block of what is left.
pub open spec fn in_turn(
    calls: Seq<Call>,
    from: int,
    limit: int,
    operation: Operation,
    opened: bool,
    closed: bool,
) -> bool {
    &&& 0 <= from <= calls.len()
    &&& opened ==> from < calls.len()
    &&& opened && closed ==> from + 1 < calls.len()
    &&& closed ==> from < calls.len() && operation != Operation::Process
    &&& forall|i: int|
        from <= i < calls.len() ==> turn_at(#[trigger] calls[i], operation, limit, opened && i == from, closed && i == calls.len() - 1)
}

/// A call of one step: the one that opens it, the one that closes it, or one between.
pub open spec fn turn_at(
    call: Call,
    operation: Operation,
    limit: int,
    opens: bool,
    ends: bool,
) -> bool {
    if opens {
        call matches Call::Flush { bytes } && bytes.len() == 2
    } else if ends {
        calls::bytes_of(call).len() <= limit && if operation == Operation::Flush {
            call is Flush
        } else {
            closes(call)
        }
    } else {
        call matches Call::Block { bytes, is_last } && bytes.len() == limit && !is_last
    }
}

impl<E: StreamEncoder> EncoderSession<E> {
    /// A step reached its end: the stream was ended, or flushed after something came.
    pub open spec fn reaches_end(
        &self,
        before: &Self,
        consumed: int,
        operation: Operation,
    ) -> bool {
        ||| self.phase == Phase::Finished && before.phase != Phase::Finished
        ||| operation == Operation::Flush && self.phase == Phase::Flushed && (before.phase
            != Phase::Flushed || consumed > 0)
    }

    /// What a step asked for, by where it came to.
    pub open spec fn asked_in_turn(
        &self,
        before: &Self,
        len: int,
        progress: Progress,
        operation: Operation,
    ) -> bool {
        let from = before.log.calls@.len() as int;
        let consumed = progress.consumed as int;
        let closed = self.reaches_end(before, consumed, operation);
        &&& before.log.calls@.is_prefix_of(self.log.calls@)
        &&& self.flint ==> before.flint
        &&& in_turn(
            self.log.calls@,
            from,
            self.limit as int,
            operation,
            before.flint && !self.flint,
            closed,
        )
        &&& !closed ==> self.phase == if consumed > 0 {
            Phase::Open
        } else {
            before.phase
        }
        // A block that is not the last is followed by something.
        &&& !closed && self.log.calls@.len() > from ==> self.staging@.len() > 0 || consumed < len
            || before.flint && !self.flint && self.log.calls@.len() == from + 1
        // A continued stream is opened once something follows its first two bytes.
        &&& self.flint && progress.status == EncoderStatus::NeedsInput ==> self.staging@.len() < 2
        &&& before.flint && !self.flint && operation == Operation::Finish ==> before.staging@.len()
            + len > 2
        &&& progress.status == EncoderStatus::NeedsOutput ==> if self.log.calls@.len() == from {
            consumed == 0
        } else {
            self.staging@.len() == 0
        }
    }

    /// What a step that failed had asked for; the call that was refused is the last.
    pub open spec fn refused_in_turn(
        &self,
        before: &Self,
        input: Seq<u8>,
        operation: Operation,
    ) -> bool {
        &&& self.limit == before.limit
        &&& self.first == before.first
        &&& before.log.calls@.is_prefix_of(self.log.calls@)
        &&& before.accepted@.is_prefix_of(self.accepted@)
        &&& self.accepted@.is_prefix_of(before.accepted@ + input)
        &&& self.log.refusing@ matches Some(call) && {
            &&& self.accepted@ == self.log.handed() + calls::bytes_of(call)
            &&& exists|opened: bool, closed: bool| #[trigger]
                in_turn(
                    self.log.calls@.push(call),
                    before.log.calls@.len() as int,
                    self.limit as int,
                    operation,
                    opened,
                    closed,
                ) && (opened ==> before.flint) && self.was_due(
                    before,
                    input.len() as int,
                    operation,
                    opened,
                    closed,
                )
        }
    }

    /// The call that was refused was due: what closes a step comes once all is taken,
    /// what opens a stream once more follows or may, and a block once more follows it.
    pub open spec fn was_due(
        &self,
        before: &Self,
        len: int,
        operation: Operation,
        opened: bool,
        closed: bool,
    ) -> bool {
        let taken = self.accepted@.len() - before.accepted@.len();
        if closed {
            &&& taken == len
            &&& operation == Operation::Flush ==> before.phase != Phase::Flushed || taken > 0
        } else if opened && self.log.calls@.len() == before.log.calls@.len() {
            taken < len || operation != Operation::Finish
        } else {
            taken < len
        }
    }

    /// The encoder answered the calls in order, and refused the one behind them.
    pub open spec fn broke_off(&self) -> bool {
        exists|last: E| #[trigger]
            self.log.ran_by(calls::of_streams::<E>(), self.first@, last) && self.log.refused_by(
                calls::of_streams::<E>(),
                last,
            )
    }

    /// Encodes the staged block, or flushes it.
    ///
    /// `how` says whether the block is the last, or nothing where it is flushed.
    fn encode(&mut self, how: Option<bool>, output: &mut [u8], produced: usize) -> (result: Result<
        usize,
        EncodeError,
    >)
        requires
            old(self).wf(),
            old(self).waiting().len() == 0,
            produced <= old(output)@.len(),
        ensures
            final(output)@.len() == old(output)@.len(),
            match result {
                Ok(filled) => {
                    &&& final(self).keeps_every_byte()
                    &&& final(self).log.calls@ == old(self).log.calls@.push(
                        asked(how, old(self).staging@),
                    )
                    &&& final(self).staging@.len() == 0
                    &&& final(self).phase == old(self).phase
                    &&& final(self).limit == old(self).limit
                    &&& final(self).flint == old(self).flint
                    &&& final(self).logical_position == old(self).logical_position
                    &&& final(self).accepted@ == old(self).accepted@
                    &&& final(self).course == old(self).course
                    &&& final(self).first == old(self).first
                    &&& final(self).encoder is Some
                    &&& produced <= filled <= final(output)@.len()
                    &&& final(output)@.take(produced as int) == old(output)@.take(produced as int)
                    &&& final(output)@.skip(filled as int) == old(output)@.skip(filled as int)
                    &&& final(self).delivered@ == old(self).delivered@ + final(output)@.subrange(
                        produced as int,
                        filled as int,
                    )
                    &&& final(self).waiting().len() > 0 ==> filled == final(output)@.len()
                },
                Err(error) => final(self).phase == Phase::Failed && (old(self).encoder is Some
                    ==> (error matches EncodeError::Compress(refusal) && final(self).log.refused@
                    == Some(refusal) && final(self).log.refusing@ == Some(
                    asked(how, old(self).staging@),
                ) && final(self).log.calls == old(self).log.calls && final(self).accepted
                    == old(self).accepted && final(self).limit == old(self).limit
                    && final(self).first == old(self).first && final(self).broke_off())),
            },
            old(self).encoder is None ==> result == Err::<usize, _>(
                (EncodeError::InternalInvariant {
                    detail: "a session outlived the encoder it was started with",
                }),
            ) && final(self).encoder is None,
    {
        let held = self.encoder.take();
        match held {
            None => {
                self.phase = Phase::Failed;
                Err(
                    EncodeError::InternalInvariant {
                        detail: "a session outlived the encoder it was started with",
                    },
                )
            },
            Some(mut encoder) => {
                let ghost held_log = self.log;
                let ghost held_encoder = encoder;
                let outcome = match how {
                    Some(is_last) => self.log.ask_next(
                        &mut encoder,
                        self.staging.as_slice(),
                        is_last,
                    ),
                    None => self.log.ask_flush(&mut encoder, self.staging.as_slice()),
                };
                self.encoder = Some(encoder);
                match outcome {
                    Err(error) => {
                        self.phase = Phase::Failed;
                        proof {
                            assert(self.log.ran_by(
                                calls::of_streams::<E>(),
                                self.first@,
                                held_encoder,
                            ));
                            assert(calls::steps_to(
                                calls::of_streams::<E>(),
                                held_encoder,
                                self.log.refusing@->0,
                                Err(self.log.refused@->0),
                                encoder,
                            ));
                            assert(self.log.refused_by(calls::of_streams::<E>(), held_encoder));
                        }
                        Err(EncodeError::Compress(error))
                    },
                    Ok(bytes) => {
                        proof {
                            calls::lemma_ran_on(
                                calls::of_streams::<E>(),
                                self.first@,
                                held_log.calls@,
                                held_log.answers@,
                                held_encoder,
                                asked(how, self.staging@),
                                bytes@,
                                encoder,
                            );
                            assert(self.delivered@ + self.waiting() =~= self.delivered@);
                        }
                        let filled: usize = self.deliver(bytes, output, produced);
                        self.staging.clear();
                        proof {
                            assert(self.accepted@ =~= self.log.handed() + self.staging@);
                        }
                        Ok(filled)
                    },
                }
            },
        }
    }

    /// Takes what the staging buffer still has room for.
    fn take_input(&mut self, input: &[u8], consumed: usize) -> (taken: usize)
        requires
            old(self).wf(),
            old(self).phase != Phase::Finished,
            consumed <= input@.len(),
            old(self).logical_position + (input@.len() - consumed) <= MAX_STREAM_POSITION,
        ensures
            final(self).wf(),
            *final(self) == (EncoderSession {
                staging: final(self).staging,
                phase: final(self).phase,
                logical_position: final(self).logical_position,
                accepted: final(self).accepted,
                ..*old(self)
            }),
            consumed <= taken <= input@.len(),
            taken == input@.len() || final(self).staging@.len() == final(self).block_limit(),
            final(self).staging@.len() == old(self).staging@.len() + (taken - consumed),
            final(self).accepted@ == old(self).accepted@ + input@.subrange(
                consumed as int,
                taken as int,
            ),
            final(self).logical_position == old(self).logical_position + (taken - consumed),
            final(self).phase == if taken > consumed {
                Phase::Open
            } else {
                old(self).phase
            },
    {
        let limit: usize = if self.flint {
            2
        } else {
            self.limit
        };
        let room: usize = limit - self.staging.len();
        let rest: usize = input.len() - consumed;
        let take: usize = if room < rest {
            room
        } else {
            rest
        };
        let ghost part = input@.subrange(consumed as int, consumed + take);
        if take > 0 {
            self.staging.extend_from_slice(&input[consumed..consumed + take]);
            self.logical_position = self.logical_position + take as u64;
            self.phase = Phase::Open;
        } else {
            assert(part =~= Seq::empty());
            assert(self.staging@ + part =~= self.staging@);
        }
        self.accepted = Ghost(self.accepted@ + part);
        assert(self.accepted@ =~= self.log.handed() + self.staging@);
        consumed + take
    }

    /// Notes whether input is left over.
    fn settle_course(&mut self, ended: Ghost<bool>, left: Ghost<bool>)
        ensures
            *final(self) == (EncoderSession { course: final(self).course, ..*old(self) }),
            final(self).course@ == if ended@ {
                old(self).course@
            } else {
                Course { left: left@, ..old(self).course@ }
            },
    {
        self.course = Ghost(
            if ended@ {
                self.course@
            } else {
                Course { left: left@, ..self.course@ }
            },
        );
    }

    /// More input is offered than a stream can hold, and the stream has not been ended.
    pub open spec fn overruns(&self, offered: int) -> bool {
        &&& self.phase != Phase::Failed
        &&& self.phase != Phase::Finished
        &&& self.logical_position + offered > MAX_STREAM_POSITION
    }

    /// The session, offered so much input, cannot go on for this reason.
    pub open spec fn gave_up(&self, offered: int, error: EncodeError) -> bool {
        match error {
            EncodeError::InvalidState { .. } => self.phase == Phase::Failed,
            EncodeError::StreamPositionOverflow { position, input_bytes } => self.overruns(offered)
                && position == self.logical_position && input_bytes == offered,
            EncodeError::InternalInvariant { .. } => self.encoder is None,
            EncodeError::Compress(refusal) => self.phase == Phase::Failed && self.log.refused@
                == Some(refusal) && self.broke_off(),
        }
    }

    /// Moves the stream forward by one step.
    ///
    /// Takes what it can from `input`, writes what it can into `output`, and says
    /// exactly how much of each it moved along with what it needs next. A finish
    /// or flush that needs output is repeated with the same operation; the final
    /// meta-block is encoded once however many calls it takes to deliver. A
    /// finished session stays finished.
    ///
    /// A block is only encoded once something is known to follow it, so that the
    /// last block of a stream is always the one encoded as the last.
    #[verifier::rlimit(100)]
    #[verifier::spinoff_prover]
    pub fn process(&mut self, input: &[u8], output: &mut [u8], operation: Operation) -> (result: Result<
        Progress,
        EncodeError,
    >)
        requires
            old(self).wf() || old(self).phase == Phase::Failed,
        ensures
            final(output)@.len() == old(output)@.len(),
            old(self).phase == Phase::Failed ==> result == Err::<Progress, _>(
                (EncodeError::InvalidState {
                    attempted: "process a stream that has already failed",
                }),
            ) && *final(self) == *old(self),
            old(self).overruns(input@.len() as int) ==> result == Err::<Progress, _>(
                EncodeError::StreamPositionOverflow {
                    position: old(self).logical_position,
                    input_bytes: input@.len() as u64,
                },
            ) && *final(self) == *old(self),
            result is Err && old(self).phase != Phase::Failed && !old(self).overruns(
                input@.len() as int,
            ) ==> final(self).phase == Phase::Failed,
            // A finished session stays as it is, and says so.
            old(self).wf() && old(self).phase == Phase::Finished && old(self).waiting().len() == 0
                ==> result == Ok::<Progress, EncodeError>(
                Progress { consumed: 0, produced: 0, status: EncoderStatus::Finished },
            ) && *final(self) == *old(self) && final(output)@ == old(output)@,
            result matches Ok(progress) ==> {
                &&& final(self).wf()
                &&& final(self).phase != Phase::Failed
                &&& progress.consumed <= input@.len()
                &&& final(self).accepted@ == old(self).accepted@ + input@.take(
                    progress.consumed as int,
                )
                &&& filled_to(old(self), final(self), final(output)@, progress.produced as int)
                &&& final(output)@.skip(progress.produced as int) == old(output)@.skip(
                    progress.produced as int,
                )
                &&& match progress.status {
                    EncoderStatus::NeedsOutput => final(self).waiting().len() > 0,
                    EncoderStatus::Finished => final(self).phase == Phase::Finished
                        && final(self).waiting().len() == 0,
                    EncoderStatus::NeedsInput => {
                        &&& final(self).waiting().len() == 0
                        &&& progress.consumed == input@.len()
                        &&& operation != Operation::Finish
                        &&& operation == Operation::Flush ==> final(self).phase == Phase::Flushed
                    },
                }
                &&& final(self).phase == Phase::Finished ==> old(self).phase == Phase::Finished
                    || operation == Operation::Finish && progress.consumed == input@.len()
                &&& old(self).phase == Phase::Finished ==> progress.consumed == 0
                    && final(self).phase == Phase::Finished
                    && final(self).accepted@ == old(self).accepted@
                &&& final(self).limit == old(self).limit
                &&& final(self).first == old(self).first
                &&& final(self).logical_position == old(self).logical_position + progress.consumed
                &&& final(self).course@ == if old(self).phase == Phase::Finished {
                    old(self).course@
                } else {
                    old(self).course@.after(
                        input@.len() as int,
                        progress.consumed as int,
                        operation,
                    )
                }
                // What was asked for is what the step takes, no more and no less.
                &&& final(self).asked_in_turn(
                    old(self),
                    input@.len() as int,
                    progress,
                    operation,
                )
            },
            old(self).wf() && old(self).phase == Phase::Finished ==> result is Ok,
            old(self).wf() && old(self).encoder is None && old(self).phase != Phase::Failed
                && !old(self).overruns(input@.len() as int) ==> final(self).encoder is None && (
            result matches Err(error) ==> error == (EncodeError::InternalInvariant {
                detail: "a session outlived the encoder it was started with",
            })),
            old(self).wf() && old(self).encoder is Some && old(self).phase != Phase::Failed
                && !old(self).overruns(input@.len() as int) ==> match result {
                Ok(_) => final(self).encoder is Some && final(self).log.refused@ is None,
                Err(error) => {
                    &&& error matches EncodeError::Compress(refusal) && final(self).log.refused@
                        == Some(refusal)
                    &&& final(self).broke_off()
                    &&& final(self).refused_in_turn(old(self), input@, operation)
                },
            },
    {
        if matches!(self.phase, Phase::Failed) {
            return Err(
                EncodeError::InvalidState { attempted: "process a stream that has already failed" },
            );
        }
        if !matches!(self.phase, Phase::Finished) && input.len() as u64 > MAX_STREAM_POSITION
            - self.logical_position {
            return Err(
                EncodeError::StreamPositionOverflow {
                    position: self.logical_position,
                    input_bytes: input.len() as u64,
                },
            );
        }
        let mut consumed: usize = 0;
        let mut produced: usize = 0;
        let ghost ended = self.phase == Phase::Finished;
        let ghost from = self.log.calls@.len() as int;
        let ghost mut closed = false;
        if !matches!(self.phase, Phase::Finished) {
            self.course = Ghost(self.course@.offered(input@.len() as int, operation));
        }
        proof {
            assert(self.accepted@ + input@.take(0) =~= self.accepted@);
            assert(self.delivered@ + output@.take(0) =~= self.delivered@);
            assert(self.log.calls@.take(from) =~= self.log.calls@);
        }
        loop
            invariant
                self.wf(),
                from == old(self).log.calls@.len(),
                self.log.calls@.len() >= from,
                self.log.calls@.take(from) == old(self).log.calls@,
                self.limit == old(self).limit,
                self.first == old(self).first,
                self.flint ==> old(self).flint,
                in_turn(
                    self.log.calls@,
                    from,
                    self.limit as int,
                    operation,
                    old(self).flint && !self.flint,
                    closed,
                ),
                closed == self.reaches_end(old(self), consumed as int, operation),
                closed ==> consumed == input@.len(),
                self.flint && !closed ==> self.log.calls@.len() == from,
                !closed ==> self.phase == if consumed > 0 {
                    Phase::Open
                } else {
                    old(self).phase
                },
                !closed && self.log.calls@.len() > from ==> self.staging@.len() > 0 || consumed
                    < input@.len() || old(self).flint && !self.flint && self.log.calls@.len() == from
                    + 1,
                old(self).flint && !self.flint && operation == Operation::Finish
                    ==> old(self).staging@.len() + input@.len() > 2,
                self.log.calls@.len() > from ==> self.staging@.len() == 0,
                self.log.calls@.len() == from ==> consumed == 0 && self.staging@
                    == old(self).staging@,
                self.course@ == if ended {
                    old(self).course@
                } else {
                    old(self).course@.offered(input@.len() as int, operation)
                },
                self.phase != Phase::Failed,
                old(self).phase != Phase::Failed,
                !old(self).overruns(input@.len() as int),
                output@.skip(produced as int) == old(output)@.skip(produced as int),
                ended && old(self).waiting().len() == 0 ==> *self == *old(self) && produced == 0,
                output@.len() == old(output)@.len(),
                consumed <= input@.len(),
                produced <= output@.len(),
                self.logical_position == old(self).logical_position + consumed,
                self.accepted@ == old(self).accepted@ + input@.take(consumed as int),
                self.delivered@ == old(self).delivered@ + output@.take(produced as int),
                self.waiting().len() > 0 ==> produced == output@.len() || (consumed == 0
                    && produced == 0),
                old(self).encoder is Some ==> self.encoder is Some,
                old(self).encoder is None ==> self.encoder is None,
                ended == (old(self).phase == Phase::Finished),
                ended ==> self.phase == Phase::Finished && consumed == 0,
                self.phase == Phase::Finished ==> ended || operation == Operation::Finish && consumed
                    == input@.len(),
                self.phase == Phase::Flushed && consumed > 0 ==> operation == Operation::Flush,
            decreases
                input@.len() - consumed,
                if self.staging@.len() == self.block_limit() {
                    1int
                } else {
                    0
                },
                if self.phase == Phase::Open {
                    2int
                } else if self.phase == Phase::Flushed {
                    1
                } else {
                    0
                },
        {
            let ghost shown = output@;
            let ghost sent = self.delivered@;
            let drained: usize = self.drain_pending(output, produced);
            proof {
                lemma_filled(
                    old(self).delivered@,
                    sent,
                    output@,
                    shown,
                    old(output)@,
                    produced as int,
                    drained as int,
                );
            }
            produced = drained;
            if self.served < self.pending.len() {
                self.settle_course(Ghost(ended), Ghost(consumed < input@.len()));
                return Ok(Progress { consumed, produced, status: EncoderStatus::NeedsOutput });
            }
            if matches!(self.phase, Phase::Finished) {
                assert(ended && old(self).waiting().len() == 0 ==> output@.skip(0) =~= output@
                    && old(output)@.skip(0) =~= old(output)@);
                self.settle_course(Ghost(ended), Ghost(consumed < input@.len()));
                return Ok(Progress { consumed, produced, status: EncoderStatus::Finished });
            }
            let ghost got = self.accepted@;
            let taken: usize = self.take_input(input, consumed);
            proof {
                assert(old(self).accepted@ + input@.take(consumed as int) + input@.subrange(
                    consumed as int,
                    taken as int,
                ) =~= old(self).accepted@ + input@.take(taken as int));
            }
            consumed = taken;
            let ghost held = *self;
            let ghost sent = self.delivered@;
            let ghost shown = output@;
            let ghost log = self.log;
            let ghost staged = self.staging@;
            if self.flint && self.staging.len() == 2 && (consumed < input.len() || !matches!(
                operation,
                Operation::Finish
            )) {
                match self.encode(None, output, produced) {
                    Err(error) => {
                        proof {
                            if old(self).encoder is Some {
                                lemma_turn(
                                    log.calls@,
                                    from,
                                    self.limit as int,
                                    operation,
                                    false,
                                    Call::Flush { bytes: staged },
                                    true,
                                    false,
                                );
                                lemma_prefixes(old(self).accepted@, input@, consumed as int);
                            }
                        }
                        return Err(error);
                    },
                    Ok(filled) => {
                        proof {
                            lemma_filled(
                                old(self).delivered@,
                                sent,
                                output@,
                                shown,
                                old(output)@,
                                produced as int,
                                filled as int,
                            );
                            calls::lemma_flush_shows(log.calls@, staged);
                            lemma_turn(
                                log.calls@,
                                from,
                                self.limit as int,
                                operation,
                                false,
                                Call::Flush { bytes: staged },
                                true,
                                false,
                            );
                        }
                        produced = filled;
                    },
                }
                self.flint = false;
                continue;
            }
            if self.staging.len() == self.limit && consumed < input.len() {
                match self.encode(Some(false), output, produced) {
                    Err(error) => {
                        proof {
                            if old(self).encoder is Some {
                                lemma_turn(
                                    log.calls@,
                                    from,
                                    self.limit as int,
                                    operation,
                                    old(self).flint && !held.flint,
                                    Call::Block { bytes: staged, is_last: false },
                                    false,
                                    false,
                                );
                                lemma_prefixes(old(self).accepted@, input@, consumed as int);
                            }
                        }
                        return Err(error);
                    },
                    Ok(filled) => {
                        proof {
                            lemma_filled(
                                old(self).delivered@,
                                sent,
                                output@,
                                shown,
                                old(output)@,
                                produced as int,
                                filled as int,
                            );
                            calls::lemma_one_more(log.calls@, log.handed(), self.limit as int, staged);
                            lemma_turn(
                                log.calls@,
                                from,
                                self.limit as int,
                                operation,
                                old(self).flint && !self.flint,
                                Call::Block { bytes: staged, is_last: false },
                                false,
                                false,
                            );
                        }
                        produced = filled;
                    },
                }
                continue;
            }
            match operation {
                Operation::Process => {
                    self.settle_course(Ghost(ended), Ghost(consumed < input@.len()));
                    return Ok(Progress { consumed, produced, status: EncoderStatus::NeedsInput });
                },
                Operation::Flush => {
                    if matches!(self.phase, Phase::Flushed) {
                        self.settle_course(Ghost(ended), Ghost(consumed < input@.len()));
                        return Ok(
                            Progress { consumed, produced, status: EncoderStatus::NeedsInput },
                        );
                    }
                    match self.encode(None, output, produced) {
                        Err(error) => {
                            proof {
                                if old(self).encoder is Some {
                                    lemma_turn(
                                        log.calls@,
                                        from,
                                        self.limit as int,
                                        operation,
                                        old(self).flint && !held.flint,
                                        Call::Flush { bytes: staged },
                                        false,
                                        true,
                                    );
                                    lemma_prefixes(old(self).accepted@, input@, consumed as int);
                                }
                            }
                            return Err(error);
                        },
                        Ok(filled) => {
                            proof {
                                lemma_filled(
                                    old(self).delivered@,
                                    sent,
                                    output@,
                                    shown,
                                    old(output)@,
                                    produced as int,
                                    filled as int,
                                );
                                calls::lemma_flush_shows(log.calls@, staged);
                                lemma_turn(
                                    log.calls@,
                                    from,
                                    self.limit as int,
                                    operation,
                                    old(self).flint && !self.flint,
                                    Call::Flush { bytes: staged },
                                    false,
                                    true,
                                );
                                closed = true;
                            }
                            produced = filled;
                        },
                    }
                    self.phase = Phase::Flushed;
                },
                Operation::Finish => {
                    match self.encode(Some(true), output, produced) {
                        Err(error) => {
                            proof {
                                if old(self).encoder is Some {
                                    lemma_turn(
                                        log.calls@,
                                        from,
                                        self.limit as int,
                                        operation,
                                        old(self).flint && !held.flint,
                                        Call::Block { bytes: staged, is_last: true },
                                        false,
                                        true,
                                    );
                                    lemma_prefixes(old(self).accepted@, input@, consumed as int);
                                }
                            }
                            return Err(error);
                        },
                        Ok(filled) => {
                            proof {
                                lemma_filled(
                                    old(self).delivered@,
                                    sent,
                                    output@,
                                    shown,
                                    old(output)@,
                                    produced as int,
                                    filled as int,
                                );
                                calls::lemma_the_end(log.calls@, log.handed(), self.limit as int, staged);
                                lemma_turn(
                                    log.calls@,
                                    from,
                                    self.limit as int,
                                    operation,
                                    old(self).flint && !self.flint,
                                    Call::Block { bytes: staged, is_last: true },
                                    false,
                                    true,
                                );
                                closed = true;
                            }
                            produced = filled;
                        },
                    }
                    self.phase = Phase::Finished;
                },
            }
        }
    }
}

/// One more call of a step.
proof fn lemma_turn(
    calls: Seq<Call>,
    from: int,
    limit: int,
    operation: Operation,
    opened: bool,
    call: Call,
    opens: bool,
    ends: bool,
)
    requires
        in_turn(calls, from, limit, operation, opened, false),
        opens ==> calls.len() == from && !opened && !ends,
        ends ==> operation != Operation::Process,
        turn_at(call, operation, limit, opens, ends),
        forall|i: int| 0 <= i < calls.len() ==> !closes(#[trigger] calls[i]),
    ensures
        in_turn(calls.push(call), from, limit, operation, opened || opens, ends),
        calls.push(call).take(from) == calls.take(from),
        calls.is_prefix_of(calls.push(call)),
        forall|i: int|
            0 <= i < calls.push(call).len() ==> (#[trigger] closes(calls.push(call)[i]) <==> closes(call)
                && i == calls.len()),
        calls::only_blocks(calls) && call is Block ==> calls::only_blocks(calls.push(call)),
{
    let more = calls.push(call);
    assert(more.take(from) =~= calls.take(from));
    assert(more.take(calls.len() as int) =~= calls);
    assert forall|i: int| from <= i < more.len() implies turn_at(
        #[trigger] more[i],
        operation,
        limit,
        (opened || opens) && i == from,
        ends && i == more.len() - 1,
    ) by {
        if i < calls.len() {
            assert(more[i] == calls[i]);
        }
    }
    assert forall|i: int| 0 <= i < more.len() implies (#[trigger] closes(more[i]) <==> closes(call)
        && i == calls.len()) by {
        if i < calls.len() {
            assert(more[i] == calls[i]);
        }
    }
    if calls::only_blocks(calls) && call is Block {
        assert forall|i: int| 0 <= i < more.len() implies #[trigger] more[i] is Block by {
            if i < calls.len() {
                assert(more[i] == calls[i]);
            }
        }
    }
}

/// What was accepted is between what was accepted before and all that was offered.
proof fn lemma_prefixes(before: Seq<u8>, input: Seq<u8>, consumed: int)
    requires
        0 <= consumed <= input.len(),
    ensures
        before.is_prefix_of(before + input.take(consumed)),
        (before + input.take(consumed)).is_prefix_of(before + input),
{
    let some = before + input.take(consumed);
    assert(some.take(before.len() as int) =~= before);
    assert((before + input).take(some.len() as int) =~= some);
}

/// What was delivered before and what is delivered now stand in the output one
/// after the other, and what follows is as it was offered.
proof fn lemma_filled(
    first: Seq<u8>,
    sent: Seq<u8>,
    output: Seq<u8>,
    shown: Seq<u8>,
    offered: Seq<u8>,
    from: int,
    to: int,
)
    requires
        0 <= from <= to <= output.len(),
        sent == first + output.take(from),
        output.len() == shown.len() == offered.len(),
        shown.skip(from) == offered.skip(from),
        output.skip(to) == shown.skip(to),
    ensures
        sent + output.subrange(from, to) == first + output.take(to),
        output.skip(to) == offered.skip(to),
{
    assert(shown.skip(to) =~= shown.skip(from).skip(to - from));
    assert(offered.skip(to) =~= offered.skip(from).skip(to - from));
    assert(sent + output.subrange(from, to) =~= first + output.take(to));
}

/// A finished session that started anew, was never flushed and was given its input in
/// order, in whatever pieces, asked what compressing its input at once asks.
pub proof fn lemma_session_asks_the_schedule<E: StreamEncoder>(session: &EncoderSession<E>)
    requires
        session.wf(),
        session.phase == Phase::Finished,
        session.course@.uninterrupted(),
    ensures
        session.log.calls@ == calls::schedule(session.accepted@, session.limit as int),
        session.log.made() == session.delivered@ + session.waiting(),
{
    calls::lemma_cut_is_schedule(session.accepted@, session.limit as int, session.log.calls@);
}

} // verus!
