//! The container: chunk ordering, checked wire sizes, and an output cursor that
//! survives a failing sink.
use vstd::prelude::*;

use crate::framing::types;
use crate::framing::types::{
    DictionaryReference, FramingConfig, FramingError, MetadataField, MetadataKind, Sink, SinkError,
};
use crate::framing::varint;
use crate::framing::varint::{encoded_len, MAX_VARINT};

verus! {

/// What keeping one chunk's record takes, apart from its bytes.
pub const RECORD_BYTES: usize = 64;

/// Room the working buffers of an operation need besides its chunks.
pub const SCRATCH_BYTES: usize = 8192;

/// A chunk as the directory lists it.
pub struct Record {
    /// Where it starts.
    pub offset: u64,
    /// What it is.
    pub kind: u8,
    /// Its length and header.
    pub header: Vec<u8>,
    /// Its content, where that is to be repeated.
    pub metadata: Vec<u8>,
}

/// Appends a number.
pub fn number(value: u64, output: &mut Vec<u8>) -> (result: Result<(), FramingError>)
    ensures
        value > MAX_VARINT ==> result == Err::<(), _>(FramingError::Overflow) && final(output)@
            == old(output)@,
        value <= MAX_VARINT ==> result is Ok && final(output)@ == old(output)@ + varint::encoded(
            value as int,
        ),
{
    match varint::write(value, output) {
        Ok(_) => Ok(()),
        Err(_) => Err(FramingError::Overflow),
    }
}

/// A chunk on the wire: the length of what follows, its header and its content.
pub open spec fn chunk_of(header: Seq<u8>, content: Seq<u8>) -> Seq<u8> {
    varint::encoded((header.len() + content.len()) as int) + header + content
}

/// How much the size of a stream that ends in a footer is, if the stream so far and
/// the directory's offset are these.
pub open spec fn sized_with(offset: int, directory: int, size: int) -> int {
    let length = 1 + varint::encoded(size).len() + varint::encoded(directory).len();
    offset + length + varint::encoded(length as int).len()
}

/// A size a footer can state: the stream is that long with the footer on it.
pub open spec fn footer_size(offset: int, directory: int, size: int) -> bool {
    &&& offset <= size <= MAX_VARINT
    &&& size == sized_with(offset, directory, size)
}

/// The smallest size a footer can state.
pub open spec fn least_size(offset: int, directory: int, size: int) -> bool {
    footer_size(offset, directory, size) && forall|other: int| #[trigger]
        footer_size(offset, directory, other) ==> size <= other
}

/// The size the footer states, where one can be stated.
pub open spec fn stated_size(offset: int, directory: int) -> int {
    choose|size: int| #[trigger] least_size(offset, directory, size)
}

/// A number written backwards, so that it can be read from the end.
pub open spec fn backwards(value: int) -> Seq<u8> {
    varint::encoded(value).reverse()
}

/// The content of a footer.
pub open spec fn footer_content(size: int, directory: int) -> Seq<u8> {
    backwards(size) + backwards(directory)
}

/// A larger size needs no less room.
proof fn lemma_sized_grows(offset: int, directory: int, smaller: int, larger: int)
    requires
        0 <= smaller <= larger <= MAX_VARINT,
        0 <= directory <= MAX_VARINT,
    ensures
        sized_with(offset, directory, smaller) <= sized_with(offset, directory, larger),
        sized_with(offset, directory, smaller) <= offset + 21,
        offset < sized_with(offset, directory, smaller),
{
    varint::lemma_encoded_grows(smaller, larger);
    varint::lemma_encoded_len(smaller);
    varint::lemma_encoded_len(larger);
    varint::lemma_encoded_len(directory);
    let a = (1 + varint::encoded(smaller).len() + varint::encoded(directory).len()) as int;
    let b = (1 + varint::encoded(larger).len() + varint::encoded(directory).len()) as int;
    varint::lemma_encoded_grows(a, b);
    varint::lemma_encoded_len(a);
    assert(varint::encoded(a).len() == 1);
}

/// Appends a number written backwards.
fn number_backwards(value: u64, output: &mut Vec<u8>)
    requires
        value <= MAX_VARINT,
    ensures
        final(output)@ == old(output)@ + backwards(value as int),
{
    let mut digits: Vec<u8> = Vec::new();
    let _ = number(value, &mut digits);
    let ghost all = varint::encoded(value as int);
    assert(digits@ =~= all);
    let ghost before = output@;
    let mut left: usize = digits.len();
    while left > 0
        invariant
            digits@ == all,
            left <= all.len(),
            output@.len() == before.len() + all.len() - left,
            forall|i: int| 0 <= i < before.len() ==> #[trigger] output@[i] == before[i],
            forall|i: int|
                0 <= i < all.len() - left ==> #[trigger] output@[before.len() + i] == all[all.len() - 1
                    - i],
        decreases left,
    {
        left -= 1;
        output.push(digits[left]);
    }
    proof {
        assert(output@ =~= before + backwards(value as int)) by {
            assert forall|i: int| 0 <= i < output@.len() implies output@[i] == (before + backwards(
                value as int,
            ))[i] by {
                if i >= before.len() {
                    assert(output@[before.len() + (i - before.len())] == all[all.len() - 1 - (i
                        - before.len())]);
                }
            }
        }
    }
}

/// Returns the content of the footer of a stream that is `offset` long so far.
///
/// The footer states the size of the whole stream, which depends on how long the
/// footer is: the smallest size that comes out right is taken.
pub fn footer(offset: u64, directory: u64) -> (result: Result<Vec<u8>, FramingError>)
    ensures
        offset > MAX_VARINT || directory > MAX_VARINT ==> result is Err,
        match result {
            Ok(content) => least_size(
                offset as int,
                directory as int,
                stated_size(offset as int, directory as int),
            ) && content@ == footer_content(
                stated_size(offset as int, directory as int),
                directory as int,
            ),
            Err(error) => error == FramingError::Overflow && (directory > MAX_VARINT || forall|size: int|
                !#[trigger] footer_size(offset as int, directory as int, size)),
        },
{
    if offset > MAX_VARINT || directory > MAX_VARINT {
        return Err(FramingError::Overflow);
    }
    let mut size: u64 = offset;
    let ghost at = offset as int;
    let ghost table = directory as int;
    let mut settled: bool = false;
    while !settled
        invariant
            at == offset,
            table == directory,
            offset <= MAX_VARINT,
            directory <= MAX_VARINT,
            offset <= size <= MAX_VARINT,
            size <= sized_with(at, table, size as int),
            settled ==> size == sized_with(at, table, size as int),
            forall|other: int| #[trigger] footer_size(at, table, other) ==> size <= other,
        decreases
            if settled {
                0int
            } else {
                1
            },
            10 - varint::encoded(size as int).len(),
            if size == sized_with(at, table, size as int) {
                0int
            } else {
                1
            },
    {
        let length: usize = 1 + encoded_len(size) + encoded_len(directory);
        let extra: u64 = (length + encoded_len(length as u64)) as u64;
        proof {
            lemma_sized_grows(at, table, size as int, size as int);
            assert(at + extra == sized_with(at, table, size as int));
        }
        if extra > MAX_VARINT - offset {
            proof {
                assert forall|other: int| !#[trigger] footer_size(at, table, other) by {
                    if footer_size(at, table, other) {
                        lemma_sized_grows(at, table, size as int, other);
                    }
                }
            }
            return Err(FramingError::Overflow);
        }
        let next: u64 = offset + extra;
        if size == next {
            settled = true;
        } else {
            proof {
                lemma_sized_grows(at, table, size as int, next as int);
                varint::lemma_encoded_grows(size as int, next as int);
                varint::lemma_encoded_len(next as int);
                assert forall|other: int| #[trigger] footer_size(at, table, other) implies next
                    <= other by {
                    lemma_sized_grows(at, table, size as int, other);
                }
            }
            size = next;
        }
    }
    let mut bytes: Vec<u8> = Vec::new();
    number_backwards(size, &mut bytes);
    number_backwards(directory, &mut bytes);
    proof {
        assert(least_size(at, table, size as int));
        let stated = stated_size(at, table);
        assert(least_size(at, table, stated));
        assert(footer_size(at, table, stated) && footer_size(at, table, size as int));
        assert(bytes@ =~= footer_content(size as int, table));
    }
    Ok(bytes)
}

/// A container and where its bytes go.
pub struct Container<W> {
    /// Where the bytes go.
    pub writer: W,
    /// What the container looks like.
    pub config: FramingConfig,
    /// Bytes on their way.
    pub pending: Vec<u8>,
    /// How many of them were taken.
    pub cursor: usize,
    /// Room the bytes on their way were given.
    pub pending_capacity: usize,
    /// How long the stream is.
    pub offset: u64,
    /// How many chunks there are.
    pub chunks: u64,
    /// How many resources there are.
    pub resources: u64,
    /// Whether a resource is being written.
    pub active: bool,
    /// Whether the last chunk ended a resource.
    pub after_resource: bool,
    /// Whether metadata waits for its resource.
    pub metadata_pending: bool,
    /// How much metadata there is.
    pub metadata_bytes: usize,
    /// The chunks listed in the directory.
    pub records: Vec<Record>,
    /// Room the records were given.
    pub record_capacity: usize,
    /// What the records take.
    pub retained: usize,
    /// Whether the container is being finished.
    pub finishing: bool,
    /// How many records were looked at for repeating.
    pub repeat_cursor: usize,
    /// Where the repeated metadata starts, or zero.
    pub repeat_offset: u64,
    /// Where the directory starts, or zero.
    pub directory_offset: u64,
    /// Whether the directory is written.
    pub directory_done: bool,
    /// Whether the last chunk is written.
    pub finished: bool,
    /// Every byte the sink took.
    pub sent: Ghost<Seq<u8>>,
}

/// A configuration contradicts itself or asks for too little.
pub open spec fn refused_config(config: FramingConfig) -> Option<FramingError> {
    if !config.container && (config.central_directory || config.repeat_metadata) {
        Some(
            FramingError::Invalid(
                "a single-resource profile cannot contain a directory or repeated metadata",
            ),
        )
    } else if config.repeat_metadata && !config.central_directory {
        Some(FramingError::Invalid("repeat metadata requires a central directory"))
    } else if config.chunk_bytes == 0 || config.chunk_bytes > 0x100_0000 || config.max_buffer_bytes
        < working_room(config) {
        Some(
            FramingError::Limit(
                "chunk size must be 1..=16 MiB and fit four times plus 8 KiB in the buffer budget",
            ),
        )
    } else {
        None
    }
}

/// What encoding one chunk needs.
pub open spec fn working_room(config: FramingConfig) -> int {
    4 * config.chunk_bytes + SCRATCH_BYTES
}

/// The five bytes a container starts with.
pub open spec fn opening(container: bool) -> Seq<u8> {
    seq![
        0x91u8,
        0x0a,
        0x42,
        0x52,
        if container {
            4
        } else {
            0
        },
    ]
}

/// A sum that stops at the top.
pub open spec fn saturated(sum: int) -> int {
    if sum > usize::MAX {
        usize::MAX as int
    } else {
        sum
    }
}

/// Multiplies, stopping at the top.
pub fn times(left: usize, right: usize) -> (product: usize)
    ensures
        product == saturated(left * right),
{
    match left.checked_mul(right) {
        Some(product) => product,
        None => usize::MAX,
    }
}

impl<W> Container<W> {
    /// The bytes still on their way.
    pub open spec fn waiting(&self) -> Seq<u8> {
        self.pending@.skip(self.cursor as int)
    }

    /// The whole stream so far: what the sink took, then what is on its way.
    pub open spec fn wire(&self) -> Seq<u8> {
        self.sent@ + self.waiting()
    }

    /// The offset is the length of the stream, and the limits hold.
    pub open spec fn wf(&self) -> bool {
        &&& self.cursor <= self.pending@.len()
        &&& self.wire().len() == self.offset
        &&& 5 <= self.offset <= MAX_VARINT
        &&& refused_config(self.config) is None
        &&& self.retained <= self.config.max_buffer_bytes
        &&& self.repeat_cursor <= self.records@.len()
        &&& self.repeat_offset <= self.offset
        &&& self.directory_offset <= self.offset
        &&& self.metadata_bytes <= self.config.max_metadata_bytes
        &&& self.chunks <= self.offset
        &&& self.resources <= self.chunks
        &&& forall|i: int|
            0 <= i < self.records@.len() ==> (#[trigger] self.records@[i]).offset <= self.offset
    }

    /// Nothing but the opening is there, and it is only queued.
    pub open spec fn is_fresh(&self, writer: W, config: FramingConfig) -> bool {
        &&& self.writer == writer
        &&& self.config == config
        &&& self.wire() == opening(config.container)
        &&& self.pending@ == opening(config.container)
        &&& self.cursor == 0
        &&& self.pending_capacity == 5
        &&& self.offset == 5
        &&& self.chunks == 0
        &&& self.resources == 0
        &&& !self.active
        &&& !self.after_resource
        &&& !self.metadata_pending
        &&& self.metadata_bytes == 0
        &&& self.records@.len() == 0
        &&& self.record_capacity == 0
        &&& self.retained == 0
        &&& !self.finishing
        &&& self.repeat_cursor == 0
        &&& self.repeat_offset == 0
        &&& self.directory_offset == 0
        &&& !self.directory_done
        &&& !self.finished
        &&& self.sent@.len() == 0
    }

    /// Returns how long the stream is.
    pub fn offset(&self) -> (offset: u64)
        ensures
            offset == self.offset,
    {
        self.offset
    }

    /// Starts a container, unless its configuration is refused.
    pub fn new(writer: W, config: FramingConfig) -> (result: Result<Self, FramingError>)
        ensures
            match refused_config(config) {
                Some(error) => result == Err::<Self, _>(error),
                None => result is Ok && result->Ok_0.wf() && result->Ok_0.is_fresh(writer, config),
            },
    {
        if !config.container && (config.central_directory || config.repeat_metadata) {
            return Err(
                FramingError::Invalid(
                    "a single-resource profile cannot contain a directory or repeated metadata",
                ),
            );
        }
        if config.repeat_metadata && !config.central_directory {
            return Err(FramingError::Invalid("repeat metadata requires a central directory"));
        }
        if config.chunk_bytes == 0 || config.chunk_bytes > 0x100_0000 || config.max_buffer_bytes
            < config.chunk_bytes * 4 + SCRATCH_BYTES {
            return Err(
                FramingError::Limit(
                    "chunk size must be 1..=16 MiB and fit four times plus 8 KiB in the buffer budget",
                ),
            );
        }
        let mut pending: Vec<u8> = Vec::new();
        pending.push(0x91);
        pending.push(0x0a);
        pending.push(0x42);
        pending.push(0x52);
        pending.push(
            if config.container {
                4
            } else {
                0
            },
        );
        let container = Container {
            writer,
            config,
            pending,
            cursor: 0,
            pending_capacity: 5,
            offset: 5,
            chunks: 0,
            resources: 0,
            active: false,
            after_resource: false,
            metadata_pending: false,
            metadata_bytes: 0,
            records: Vec::new(),
            record_capacity: 0,
            retained: 0,
            finishing: false,
            repeat_cursor: 0,
            repeat_offset: 0,
            directory_offset: 0,
            directory_done: false,
            finished: false,
            sent: Ghost(Seq::empty()),
        };
        assert(container.wire() =~= opening(config.container));
        assert(container.pending@ =~= opening(config.container));
        Ok(container)
    }

    /// Checks that some more bytes may be kept.
    pub fn check_buffer(&self, extra: usize) -> (result: Result<(), FramingError>)
        ensures
            result == if saturated(self.retained + extra) > self.config.max_buffer_bytes {
                Err::<(), _>(FramingError::Limit("retained framing bytes"))
            } else {
                Ok(())
            },
    {
        if self.retained.saturating_add(extra) > self.config.max_buffer_bytes {
            Err(FramingError::Limit("retained framing bytes"))
        } else {
            Ok(())
        }
    }

    /// Some delivered bytes and a chunk would be more than may be kept.
    pub open spec fn overflows_with(&self, bytes: int) -> bool {
        saturated(self.retained + saturated(saturated(bytes) + self.config.chunk_bytes))
            > self.config.max_buffer_bytes
    }

    /// Checks that what an encoder delivered may be kept.
    pub fn check_delivered(&self, bytes: usize) -> (result: Result<(), FramingError>)
        ensures
            result == if self.overflows_with(bytes as int) {
                Err::<(), _>(FramingError::Limit("retained framing bytes"))
            } else {
                Ok(())
            },
    {
        self.check_buffer(bytes.saturating_add(self.config.chunk_bytes))
    }

    /// Between resources and before the end.
    pub open spec fn is_idle(&self) -> bool {
        !self.active && !self.finishing
    }

    /// Checks that no resource is being written and the end is not near.
    fn idle(&self) -> (result: Result<(), FramingError>)
        ensures
            result == if self.is_idle() {
                Ok(())
            } else {
                Err::<(), _>(
                    FramingError::Invalid(
                        "resource is unfinished, abandoned, or container is finishing",
                    ),
                )
            },
    {
        if self.active || self.finishing {
            return Err(
                FramingError::Invalid(
                    "resource is unfinished, abandoned, or container is finishing",
                ),
            );
        }
        Ok(())
    }

    /// What is kept of a chunk that is listed.
    pub open spec fn keeps_metadata(&self, kind: u8) -> bool {
        self.config.repeat_metadata && (kind == 1 || kind == 6)
    }

    /// How much room the records have after one more.
    pub open spec fn grown_capacity(&self, record: bool) -> int {
        if record && self.records@.len() >= self.record_capacity {
            let doubled = saturated(2 * self.record_capacity);
            if doubled > 4 {
                doubled
            } else {
                4
            }
        } else {
            self.record_capacity as int
        }
    }

    /// What listing a chunk takes.
    pub open spec fn record_cost(&self, header: Seq<u8>, content: Seq<u8>, record: bool) -> int {
        if record {
            saturated(
                saturated(
                    saturated((self.grown_capacity(true) - self.record_capacity) * RECORD_BYTES)
                        + header.len() + 9,
                ) + if self.keeps_metadata(header[0]) {
                    content.len()
                } else {
                    0
                },
            )
        } else {
            0
        }
    }

    /// How long a chunk is on the wire.
    pub open spec fn wire_len(header: Seq<u8>, content: Seq<u8>) -> int {
        chunk_of(header, content).len() as int
    }

    /// What queueing a chunk needs.
    pub open spec fn queue_room(&self, header: Seq<u8>, content: Seq<u8>, record: bool) -> int {
        saturated(
            saturated(
                saturated(
                    saturated(2 * Self::wire_len(header, content)) + self.pending_capacity,
                ) + self.record_cost(header, content, record),
            ) + 2 * self.config.chunk_bytes,
        )
    }

    /// Why a chunk cannot be queued, if it cannot.
    pub open spec fn refuses_chunk(&self, header: Seq<u8>, content: Seq<u8>, record: bool) -> Option<
        FramingError,
    > {
        if self.pending@.len() > 0 {
            Some(FramingError::Invalid("pending chunk must be drained"))
        } else {
            self.refuses_next(header, content, record)
        }
    }

    /// Why a chunk cannot be queued once the one before is on its way, if it cannot.
    pub open spec fn refuses_next(&self, header: Seq<u8>, content: Seq<u8>, record: bool) -> Option<
        FramingError,
    > {
        if self.chunks >= self.config.max_chunks {
            Some(FramingError::Limit("chunk count"))
        } else if header.len() + content.len() > usize::MAX || Self::wire_len(header, content)
            > usize::MAX || self.offset + Self::wire_len(header, content) > MAX_VARINT {
            Some(FramingError::Overflow)
        } else if saturated(self.retained + self.queue_room(header, content, record))
            > self.config.max_buffer_bytes {
            Some(FramingError::Limit("retained framing bytes"))
        } else {
            None
        }
    }

    /// A chunk was queued after everything before it went off, and listed if asked to.
    pub open spec fn has_queued(
        &self,
        before: &Self,
        header: Seq<u8>,
        content: Seq<u8>,
        record: bool,
    ) -> bool {
        &&& self.wire() == before.wire() + chunk_of(header, content)
        &&& self.sent@ == before.wire()
        &&& self.pending@ == chunk_of(header, content)
        &&& self.cursor == 0
        &&& self.accounts_for(before, header, content, record)
    }

    /// A chunk is counted, and listed if asked to.
    pub open spec fn accounts_for(
        &self,
        before: &Self,
        header: Seq<u8>,
        content: Seq<u8>,
        record: bool,
    ) -> bool {
        &&& self.pending_capacity == Self::wire_len(header, content)
        &&& self.offset == before.offset + Self::wire_len(header, content)
        &&& self.chunks == before.chunks + 1
        &&& self.record_capacity == before.grown_capacity(record)
        &&& !record ==> self.records == before.records && self.retained == before.retained
        &&& record ==> {
            &&& self.records@.len() == before.records@.len() + 1
            &&& self.records@.drop_last() == before.records@
            &&& self.records@.last().offset == before.offset
            &&& self.records@.last().kind == header[0]
            &&& self.records@.last().header@ == varint::encoded(
                (header.len() + content.len()) as int,
            ) + header
            &&& self.records@.last().metadata@ == if before.keeps_metadata(header[0]) {
                content
            } else {
                Seq::empty()
            }
            &&& self.retained == saturated(
                before.retained + before.record_cost(header, content, true),
            )
        }
    }

    /// Only what is on its way, what is listed and where the resources stand has changed.
    pub open spec fn only_grown(&self, before: &Self) -> bool {
        *self == (Container {
            writer: self.writer,
            pending: self.pending,
            cursor: self.cursor,
            pending_capacity: self.pending_capacity,
            offset: self.offset,
            chunks: self.chunks,
            records: self.records,
            record_capacity: self.record_capacity,
            retained: self.retained,
            resources: self.resources,
            active: self.active,
            after_resource: self.after_resource,
            sent: self.sent,
            ..*before
        })
    }

    /// Some bytes and the room to work in would be more than may be kept.
    pub open spec fn has_no_room(&self, bytes: int) -> bool {
        saturated(self.retained + saturated(bytes + SCRATCH_BYTES)) > self.config.max_buffer_bytes
    }

    /// Checks that a chunk can be queued, and returns how long it is without and with
    /// its length, how much room the records get, and what listing it takes.
    fn plan_chunk(&self, header: &Vec<u8>, content: &[u8], record: bool) -> (result: Result<
        (usize, usize, usize, usize),
        FramingError,
    >)
        requires
            self.wf(),
            header@.len() > 0,
        ensures
            match self.refuses_chunk(header@, content@, record) {
                Some(error) => result == Err::<(usize, usize, usize, usize), _>(error),
                None => result is Ok && ({
                    let (length, total, capacity, cost) = result->Ok_0;
                    &&& length == header@.len() + content@.len()
                    &&& total == Self::wire_len(header@, content@)
                    &&& length as u64 <= MAX_VARINT
                    &&& capacity == self.grown_capacity(record)
                    &&& cost == self.record_cost(header@, content@, record)
                    &&& saturated(self.retained + cost) <= self.config.max_buffer_bytes
                }),
            },
    {
        if self.pending.len() > 0 {
            return Err(FramingError::Invalid("pending chunk must be drained"));
        }
        if self.chunks >= self.config.max_chunks {
            return Err(FramingError::Limit("chunk count"));
        }
        let ghost chunk = chunk_of(header@, content@);
        let length: usize = match header.len().checked_add(content.len()) {
            Some(length) => length,
            None => return Err(FramingError::Overflow),
        };
        let total: usize = match length.checked_add(encoded_len(length as u64)) {
            Some(total) => total,
            None => return Err(FramingError::Overflow),
        };
        assert(total == chunk.len());
        if total as u64 > MAX_VARINT - self.offset {
            return Err(FramingError::Overflow);
        }
        let kind: u8 = header[0];
        let metadata: bool = self.config.repeat_metadata && (kind == 1 || kind == 6);
        let mut capacity: usize = self.record_capacity;
        if record && self.records.len() >= capacity {
            capacity = times(capacity, 2);
            if capacity < 4 {
                capacity = 4;
            }
        }
        let cost: usize = if record {
            times(capacity - self.record_capacity, RECORD_BYTES).saturating_add(
                header.len(),
            ).saturating_add(9).saturating_add(
                if metadata {
                    content.len()
                } else {
                    0
                },
            )
        } else {
            0
        };
        assert(cost == self.record_cost(header@, content@, record));
        let room: usize = times(total, 2).saturating_add(self.pending_capacity).saturating_add(
            cost,
        ).saturating_add(self.config.chunk_bytes * 2);
        match self.check_buffer(room) {
            Err(error) => return Err(error),
            Ok(_) => {},
        }
        Ok((length, total, capacity, cost))
    }

    /// Queues a chunk, and lists it if asked to.
    ///
    /// A chunk is only queued when the one before is on its way, no limit is
    /// exceeded, and the stream stays short enough to be addressed. A refused chunk
    /// leaves everything as it was.
    #[verifier::rlimit(60)]
    pub fn queue(&mut self, header: Vec<u8>, content: &[u8], record: bool) -> (result: Result<
        (),
        FramingError,
    >)
        requires
            old(self).wf(),
            header@.len() > 0,
        ensures
            final(self).wf(),
            match old(self).refuses_chunk(header@, content@, record) {
                Some(error) => result == Err::<(), _>(error) && *final(self) == *old(self),
                None => {
                    &&& result is Ok
                    &&& final(self).has_queued(old(self), header@, content@, record)
                    &&& final(self).sent@ == old(self).sent@
                    &&& *final(self) == (Container {
                        pending: final(self).pending,
                        cursor: final(self).cursor,
                        pending_capacity: final(self).pending_capacity,
                        offset: final(self).offset,
                        chunks: final(self).chunks,
                        records: final(self).records,
                        record_capacity: final(self).record_capacity,
                        retained: final(self).retained,
                        ..*old(self)
                    })
                },
            },
    {
        let (length, total, capacity, cost) = match self.plan_chunk(&header, content, record) {
            Err(error) => return Err(error),
            Ok(plan) => plan,
        };
        let ghost chunk = chunk_of(header@, content@);
        let kind: u8 = header[0];
        let metadata: bool = self.config.repeat_metadata && (kind == 1 || kind == 6);
        let mut complete: Vec<u8> = Vec::new();
        match number(length as u64, &mut complete) {
            Err(error) => return Err(error),
            Ok(_) => {},
        }
        complete.extend_from_slice(header.as_slice());
        let ghost listed = varint::encoded((header@.len() + content@.len()) as int) + header@;
        assert(complete@ =~= listed);
        let mut pending: Vec<u8> = Vec::new();
        pending.extend_from_slice(complete.as_slice());
        pending.extend_from_slice(content);
        assert(pending@ =~= chunk);
        let ghost before = self.wire();
        self.pending = pending;
        self.cursor = 0;
        self.pending_capacity = total;
        if record {
            let ghost held = self.records@;
            let mut kept: Vec<u8> = Vec::new();
            if metadata {
                kept.extend_from_slice(content);
            }
            assert(kept@ =~= if self.keeps_metadata(kind) {
                content@
            } else {
                Seq::empty()
            });
            self.record_capacity = capacity;
            self.records.push(
                Record { offset: self.offset, kind, header: complete, metadata: kept },
            );
            self.retained = self.retained.saturating_add(cost);
            assert(self.records@.drop_last() =~= held);
        }
        self.offset = self.offset + total as u64;
        self.chunks = self.chunks + 1;
        proof {
            assert(before =~= self.sent@);
            assert(self.wire() =~= before + chunk);
            assert(chunk.len() >= 1);
            assert(self.retained <= self.config.max_buffer_bytes);
            assert forall|i: int| 0 <= i < self.records@.len() implies (
            #[trigger] self.records@[i]).offset <= self.offset by {
                if i < old(self).records@.len() {
                    assert(old(self).records@[i].offset <= old(self).offset);
                }
            }
        }
        Ok(())
    }
}

/// Why what a sink says of some bytes is an error, if it is.
pub open spec fn refused_write(left: int, said: Result<usize, SinkError>) -> Option<SinkError> {
    match said {
        Err(error) => Some(error),
        Ok(count) => if count == 0 {
            Some(SinkError::WriteZero)
        } else if count > left {
            Some(SinkError::Oversized)
        } else {
            None
        },
    }
}

/// Holds what a sink says against what it was offered.
///
/// A sink that takes nothing, or claims to have taken more than it was offered, has
/// failed.
pub fn check_write(left: usize, said: Result<usize, SinkError>) -> (result: Result<
    usize,
    FramingError,
>)
    ensures
        match refused_write(left as int, said) {
            Some(error) => result == Err::<usize, _>(FramingError::Io(error)),
            None => result == Ok::<usize, FramingError>(said->Ok_0),
        },
{
    match said {
        Err(error) => Err(FramingError::Io(error)),
        Ok(count) => {
            if count == 0 {
                return Err(FramingError::Io(SinkError::WriteZero));
            }
            if count > left {
                return Err(FramingError::Io(SinkError::Oversized));
            }
            Ok(count)
        },
    }
}

impl<W: Sink> Container<W> {
    /// The sink got exactly the bytes that went off since, each once and in order.
    pub open spec fn passes_on(&self, before: &Self) -> bool {
        &&& before.sent@.is_prefix_of(self.sent@)
        &&& before.writer.shows() ==> self.writer.shows() && self.writer.taken()
            == before.writer.taken() + self.sent@.skip(before.sent@.len() as int)
        &&& before.writer.obliges() ==> self.writer.obliges()
    }

    /// What is passed on step by step is passed on.
    pub proof fn lemma_passed_on(before: &Self, between: &Self, after: &Self)
        requires
            between.passes_on(before),
            after.passes_on(between),
        ensures
            after.passes_on(before),
    {
        let first = before.sent@.len() as int;
        let second = between.sent@.len() as int;
        assert(after.sent@.take(second) == between.sent@);
        assert(after.sent@.take(first) =~= between.sent@.take(first));
        assert(after.sent@.skip(first) =~= between.sent@.skip(first) + after.sent@.skip(second));
        if before.writer.shows() {
            assert(before.writer.taken() + between.sent@.skip(first) + after.sent@.skip(second)
                =~= before.writer.taken() + after.sent@.skip(first));
        }
    }

    /// Where nothing went off, nothing is passed on.
    pub proof fn lemma_stayed(before: &Self, after: &Self)
        requires
            after.writer == before.writer,
            after.sent@ == before.sent@,
        ensures
            after.passes_on(before),
    {
        let first = before.sent@.len() as int;
        assert(after.sent@.skip(first) =~= Seq::empty());
        assert(before.writer.taken() + Seq::<u8>::empty() =~= before.writer.taken());
        assert(after.sent@.take(first) =~= before.sent@);
    }

    /// The sink, offered what is waiting, said something that is this error.
    pub open spec fn sink_said(&self, error: SinkError) -> bool {
        exists|said: Result<usize, SinkError>|
            #[trigger] W::answers(self.waiting(), said) && refused_write(
                self.waiting().len() as int,
                said,
            ) == Some(error)
    }

    /// The sink did not take what was waiting, and nothing else happened.
    pub open spec fn sink_stopped<R>(&self, before: &Self, result: Result<R, FramingError>) -> bool {
        &&& result is Err && result->Err_0 is Io && self.sink_said(result->Err_0->Io_0)
        &&& before.pending@.len() > 0
        &&& !before.writer.obliges()
        &&& self.waiting().len() > 0
        &&& self.wire() == before.wire()
        &&& self.only_drained(before)
    }

    /// Only what is on its way, and how much of it was taken, has changed.
    pub open spec fn only_drained(&self, before: &Self) -> bool {
        *self == (Container {
            writer: self.writer,
            pending: self.pending,
            cursor: self.cursor,
            sent: self.sent,
            ..*before
        })
    }

    /// Passes bytes on their way to the sink until all are taken.
    ///
    /// What the sink took is not offered again, so a failed call can be repeated.
    pub fn drain(&mut self) -> (result: Result<(), FramingError>)
        requires
            old(self).wf(),
        ensures
            final(self).wf(),
            final(self).wire() == old(self).wire(),
            final(self).only_drained(old(self)),
            final(self).passes_on(old(self)),
            old(self).pending@.len() == 0 ==> result is Ok && *final(self) == *old(self),
            old(self).writer.obliges() ==> result is Ok,
            match result {
                Ok(_) => final(self).pending@.len() == 0 && final(self).sent@ == old(self).wire(),
                Err(error) => final(self).waiting().len() > 0 && error is Io
                    && final(self).sink_said(error->Io_0),
            },
    {
        let size: usize = self.pending.len();
        if size == 0 {
            proof {
                Self::lemma_stayed(old(self), self);
                assert(self.sent@ =~= self.wire());
            }
            return Ok(());
        }
        proof {
            Self::lemma_stayed(old(self), self);
        }
        while self.cursor < size
            invariant
                self.wf(),
                size == self.pending@.len(),
                size > 0,
                old(self).pending@.len() > 0,
                self.wire() == old(self).wire(),
                self.only_drained(old(self)),
                self.passes_on(old(self)),
            decreases size - self.cursor,
        {
            let ghost held = *self;
            let left: usize = size - self.cursor;
            let said = self.writer.write(&self.pending.as_slice()[self.cursor..size]);
            proof {
                assert(held.pending@.subrange(held.cursor as int, size as int) =~= held.waiting());
                assert(self.waiting() =~= held.waiting());
                if held.writer.shows() && types::took(held.waiting(), said).len() == 0 {
                    assert(held.writer.taken() + types::took(held.waiting(), said)
                        =~= held.writer.taken());
                }
            }
            match check_write(left, said) {
                Err(error) => {
                    proof {
                        assert(types::took(held.waiting(), said) =~= Seq::empty());
                        assert(W::answers(self.waiting(), said));
                    }
                    return Err(error);
                },
                Ok(count) => {
                    let ghost before = self.wire();
                    let ghost taken = self.waiting().take(count as int);
                    self.cursor = self.cursor + count;
                    self.sent = Ghost(self.sent@ + taken);
                    proof {
                        assert(self.wire() =~= before);
                        assert(self.sent@.skip(held.sent@.len() as int) =~= taken);
                        assert(self.sent@.take(held.sent@.len() as int) =~= held.sent@);
                        Self::lemma_passed_on(old(self), &held, self);
                    }
                },
            }
        }
        let ghost held = *self;
        let ghost before = self.wire();
        self.pending.clear();
        self.cursor = 0;
        proof {
            assert(self.wire() =~= before);
            assert(self.sent@ =~= before);
            Self::lemma_stayed(&held, self);
            Self::lemma_passed_on(old(self), &held, self);
        }
        Ok(())
    }

    /// Why a resource cannot begin, if it cannot.
    pub open spec fn refuses_resource(&self) -> Option<FramingError> {
        if !self.is_idle() {
            Some(
                FramingError::Invalid(
                    "resource is unfinished, abandoned, or container is finishing",
                ),
            )
        } else if self.chunks >= self.config.max_chunks {
            Some(FramingError::Limit("chunk count"))
        } else if self.resources >= self.config.max_resources || (!self.config.container
            && self.resources != 0) {
            Some(FramingError::Limit("resource count"))
        } else if saturated(self.retained + working_room(self.config)) > self.config.max_buffer_bytes {
            Some(FramingError::Limit("retained framing bytes"))
        } else {
            None
        }
    }

    /// Makes room for a resource.
    pub fn begin(&mut self) -> (result: Result<(), FramingError>)
        requires
            old(self).wf(),
        ensures
            final(self).wf(),
            final(self).wire() == old(self).wire(),
            match old(self).refuses_resource() {
                Some(error) => result == Err::<(), _>(error) && *final(self) == *old(self),
                None => {
                    &&& result is Ok ==> final(self).pending@.len() == 0
                    &&& result is Err ==> final(self).sink_stopped(old(self), result)
                    &&& old(self).pending@.len() == 0 ==> result is Ok && *final(self) == *old(self)
                    &&& old(self).writer.obliges() ==> result is Ok
                    &&& final(self).only_drained(old(self))
                    &&& final(self).passes_on(old(self))
                },
            },
    {
        match self.idle() {
            Err(error) => return Err(error),
            Ok(_) => {},
        }
        if self.chunks >= self.config.max_chunks {
            return Err(FramingError::Limit("chunk count"));
        }
        if self.resources >= self.config.max_resources || (!self.config.container
            && self.resources != 0) {
            return Err(FramingError::Limit("resource count"));
        }
        match self.check_buffer(self.config.chunk_bytes * 4 + SCRATCH_BYTES) {
            Err(error) => return Err(error),
            Ok(_) => {},
        }
        self.drain()
    }

    /// Why padding cannot be queued before the sink is asked, if it cannot.
    pub open spec fn refuses_padding(&self, bytes: int) -> Option<FramingError> {
        if !self.is_idle() {
            Some(
                FramingError::Invalid(
                    "resource is unfinished, abandoned, or container is finishing",
                ),
            )
        } else if self.has_no_room(saturated(3 * bytes)) {
            Some(FramingError::Limit("retained framing bytes"))
        } else {
            None
        }
    }

    /// What queueing padding leaves of a container.
    pub open spec fn queues_padding(
        &self,
        before: &Self,
        bytes: usize,
        result: Result<(), FramingError>,
    ) -> bool {
        let zeros = Seq::new(bytes as nat, |i: int| 0u8);
        &&& self.wf()
        &&& self.passes_on(before)
        &&& before.refuses_padding(bytes as int) matches Some(error) ==> result == Err::<(), _>(
            error,
        ) && *self == *before
        // Otherwise only the sink, or a limit once everything before is on its way, can
        // keep it from being queued.
        &&& before.refuses_padding(bytes as int) is None ==> self.sink_stopped(before, result) || (
        match before.refuses_next(seq![0u8], zeros, false) {
            Some(error) => result == Err::<(), _>(error) && self.pending@.len() == 0,
            None => result is Ok,
        })
        &&& before.pending@.len() == 0 ==> if result is Ok {
            self.sent == before.sent
        } else {
            *self == *before
        }
        &&& result is Ok ==> {
            &&& self.has_queued(before, seq![0u8], zeros, false)
            &&& *self == (Container {
                writer: self.writer,
                pending: self.pending,
                cursor: self.cursor,
                pending_capacity: self.pending_capacity,
                offset: self.offset,
                chunks: self.chunks,
                sent: self.sent,
                ..*before
            })
        }
        &&& result is Err ==> self.wire() == before.wire() && self.only_drained(before)
    }

    /// Queues a chunk of zeros that carries nothing.
    pub fn padding(&mut self, bytes: usize) -> (result: Result<(), FramingError>)
        requires
            old(self).wf(),
        ensures
            final(self).queues_padding(old(self), bytes, result),
    {
        proof {
            Self::lemma_stayed(old(self), self);
        }
        match self.idle() {
            Err(error) => return Err(error),
            Ok(_) => {},
        }
        match self.check_buffer(times(bytes, 3).saturating_add(SCRATCH_BYTES)) {
            Err(error) => return Err(error),
            Ok(_) => {},
        }
        match self.drain() {
            Err(error) => return Err(error),
            Ok(_) => {},
        }
        let mut header: Vec<u8> = Vec::new();
        header.push(0);
        assert(header@ =~= seq![0u8]);
        let zeros: Vec<u8> = vec![0u8; bytes];
        assert(zeros@ =~= Seq::new(bytes as nat, |i: int| 0u8));
        let ghost drained = *self;
        let queued = self.queue(header, zeros.as_slice(), false);
        proof {
            Self::lemma_stayed(&drained, self);
            Self::lemma_passed_on(old(self), &drained, self);
        }
        queued
    }
}

/// The kind of a dictionary reference: four for a serialized one, then how it
/// points.
pub open spec fn reference_flag(reference: DictionaryReference) -> u8 {
    match reference {
        DictionaryReference::PrefixId(_) => 2,
        DictionaryReference::SerializedId(_) => 6,
        DictionaryReference::PrefixResource(_) => 0,
        DictionaryReference::SerializedResource(_) => 4,
        DictionaryReference::PrefixChunk(_) => 1,
    }
}

/// A reference to a serialized dictionary.
pub open spec fn is_serialized(reference: DictionaryReference) -> bool {
    reference is SerializedId || reference is SerializedResource
}

/// How many references are to serialized dictionaries.
pub open spec fn serialized_in(references: Seq<DictionaryReference>) -> int
    decreases references.len(),
{
    if references.len() == 0 {
        0
    } else {
        serialized_in(references.drop_last()) + if is_serialized(references.last()) {
            1int
        } else {
            0
        }
    }
}

impl<W> Container<W> {
    /// A pointer addresses an earlier content chunk, or the start of a resource.
    pub open spec fn addresses(&self, offset: u64, chunk: bool) -> bool {
        exists|i: int|
            0 <= i < self.records@.len() && (#[trigger] self.records@[i]).offset == offset && (chunk
                || self.records@[i].kind == 2 || self.records@[i].kind == 3)
    }

    /// A reference's pointer, if it has one, is valid.
    pub open spec fn points_right(&self, reference: DictionaryReference) -> bool {
        match reference {
            DictionaryReference::PrefixResource(offset) => self.addresses(offset, false),
            DictionaryReference::SerializedResource(offset) => self.addresses(offset, false),
            DictionaryReference::PrefixChunk(offset) => self.addresses(offset, true),
            _ => true,
        }
    }

    /// Why the first references are refused, if they are.
    pub open spec fn refuses_references(&self, references: Seq<DictionaryReference>) -> Option<
        FramingError,
    >
        decreases references.len(),
    {
        if references.len() == 0 {
            None
        } else if self.refuses_references(references.drop_last()) is Some {
            self.refuses_references(references.drop_last())
        } else if serialized_in(references) > 1 || references.len() - serialized_in(references)
            > 15 {
            Some(
                FramingError::Invalid("at most one serialized and fifteen prefix references"),
            )
        } else if !self.points_right(references.last()) {
            Some(
                FramingError::Invalid(
                    "dictionary pointer must address an earlier content chunk or resource",
                ),
            )
        } else {
            None
        }
    }

    /// Why a resource's references are refused, if they are.
    pub open spec fn refuses_list(&self, references: Seq<DictionaryReference>) -> Option<
        FramingError,
    > {
        if references.len() == 0 || references.len() > 16 {
            Some(FramingError::Invalid("shared chunks require 1..=16 dictionary references"))
        } else {
            self.refuses_references(references)
        }
    }

    /// Which references are refused does not depend on what is on its way.
    pub proof fn lemma_references_drained(&self, before: &Self, references: Seq<DictionaryReference>)
        requires
            *self == (Container {
                writer: self.writer,
                pending: self.pending,
                cursor: self.cursor,
                sent: self.sent,
                ..*before
            }),
        ensures
            self.refuses_references(references) == before.refuses_references(references),
        decreases references.len(),
    {
        if references.len() > 0 {
            self.lemma_references_drained(before, references.drop_last());
            assert(self.records == before.records);
            assert forall|offset: u64, chunk: bool| #[trigger]
                self.addresses(offset, chunk) == before.addresses(offset, chunk) by {
                if self.addresses(offset, chunk) {
                    let i = choose|i: int|
                        0 <= i < self.records@.len() && (#[trigger] self.records@[i]).offset == offset
                            && (chunk || self.records@[i].kind == 2 || self.records@[i].kind == 3);
                    assert(before.records@[i].offset == offset);
                }
                if before.addresses(offset, chunk) {
                    let i = choose|i: int|
                        0 <= i < before.records@.len() && (#[trigger] before.records@[i]).offset
                            == offset && (chunk || before.records@[i].kind == 2
                            || before.records@[i].kind == 3);
                    assert(self.records@[i].offset == offset);
                }
            }
            assert(self.points_right(references.last()) == before.points_right(references.last()));
        }
    }

    /// What refuses the first references refuses all of them.
    proof fn lemma_refused_early(&self, references: Seq<DictionaryReference>, n: int)
        requires
            0 <= n <= references.len(),
            self.refuses_references(references.take(n)) is Some,
        ensures
            self.refuses_references(references) == self.refuses_references(references.take(n)),
        decreases references.len(),
    {
        if n == references.len() {
            assert(references.take(n) =~= references);
        } else {
            assert(references.drop_last().take(n) =~= references.take(n));
            self.lemma_refused_early(references.drop_last(), n);
        }
    }

    /// Returns whether a pointer addresses an earlier chunk.
    fn is_addressed(&self, offset: u64, chunk: bool) -> (found: bool)
        ensures
            found == self.addresses(offset, chunk),
    {
        let mut i: usize = 0;
        while i < self.records.len()
            invariant
                i <= self.records@.len(),
                forall|j: int|
                    0 <= j < i ==> !((#[trigger] self.records@[j]).offset == offset && (chunk
                        || self.records@[j].kind == 2 || self.records@[j].kind == 3)),
            decreases self.records@.len() - i,
        {
            if self.records[i].offset == offset && (chunk || self.records[i].kind == 2
                || self.records[i].kind == 3) {
                assert(self.records@[i as int].offset == offset);
                return true;
            }
            i += 1;
        }
        false
    }

    /// Returns the dictionary references of a resource as its header holds them.
    ///
    /// There must be one to sixteen, at most one of them to a serialized
    /// dictionary, and a pointer must address what the container already holds.
    pub fn references(&self, references: &[DictionaryReference]) -> (result: Result<
        Vec<u8>,
        FramingError,
    >)
        requires
            self.wf(),
        ensures
            match self.refuses_list(references@) {
                Some(error) => result == Err::<Vec<u8>, _>(error),
                None => result is Ok && result->Ok_0@ == seq![references@.len() as u8]
                    + listed_references(references@),
            },
    {
        if references.len() == 0 || references.len() > 16 {
            return Err(
                FramingError::Invalid("shared chunks require 1..=16 dictionary references"),
            );
        }
        let mut bytes: Vec<u8> = Vec::new();
        bytes.push(references.len() as u8);
        let mut serialized: usize = 0;
        let mut i: usize = 0;
        assert(bytes@ =~= seq![references@.len() as u8] + listed_references(references@.take(0)));
        while i < references.len()
            invariant
                self.wf(),
                1 <= references@.len() <= 16,
                i <= references@.len(),
                serialized == serialized_in(references@.take(i as int)),
                serialized <= i,
                self.refuses_references(references@.take(i as int)) is None,
                bytes@ == seq![references@.len() as u8] + listed_references(
                    references@.take(i as int),
                ),
            decreases references@.len() - i,
        {
            let reference: DictionaryReference = references[i];
            let ghost before = bytes@;
            proof {
                assert(references@.take(i + 1).drop_last() =~= references@.take(i as int));
            }
            match reference {
                DictionaryReference::SerializedId(_) => {
                    serialized += 1;
                },
                DictionaryReference::SerializedResource(_) => {
                    serialized += 1;
                },
                _ => {},
            }
            if serialized > 1 || i + 1 - serialized > 15 {
                proof {
                    self.lemma_refused_early(references@, i + 1);
                }
                return Err(
                    FramingError::Invalid("at most one serialized and fifteen prefix references"),
                );
            }
            let pointer: Option<(u64, bool)> = match reference {
                DictionaryReference::PrefixId(id) => {
                    bytes.push(2);
                    bytes.push(3);
                    bytes.extend_from_slice(&id.0);
                    None
                },
                DictionaryReference::SerializedId(id) => {
                    bytes.push(6);
                    bytes.push(3);
                    bytes.extend_from_slice(&id.0);
                    None
                },
                DictionaryReference::PrefixResource(offset) => {
                    bytes.push(0);
                    Some((offset, false))
                },
                DictionaryReference::SerializedResource(offset) => {
                    bytes.push(4);
                    Some((offset, false))
                },
                DictionaryReference::PrefixChunk(offset) => {
                    bytes.push(1);
                    Some((offset, true))
                },
            };
            if let Some((offset, chunk)) = pointer {
                if !self.is_addressed(offset, chunk) {
                    proof {
                        self.lemma_refused_early(references@, i + 1);
                    }
                    return Err(
                        FramingError::Invalid(
                            "dictionary pointer must address an earlier content chunk or resource",
                        ),
                    );
                }
                proof {
                    let k = choose|k: int|
                        0 <= k < self.records@.len() && (#[trigger] self.records@[k]).offset
                            == offset && (chunk || self.records@[k].kind == 2
                            || self.records@[k].kind == 3);
                    assert(self.records@[k].offset <= self.offset);
                }
                let _ = number(offset, &mut bytes);
            }
            proof {
                assert(bytes@ =~= before + reference_bytes(reference));
                assert(bytes@ =~= seq![references@.len() as u8] + listed_references(
                    references@.take(i + 1),
                ));
            }
            i += 1;
        }
        assert(references@.take(references@.len() as int) =~= references@);
        Ok(bytes)
    }
}

/// One reference as a header holds it: its kind, then a hash or a pointer.
pub open spec fn reference_bytes(reference: DictionaryReference) -> Seq<u8> {
    seq![reference_flag(reference)] + match reference {
        DictionaryReference::PrefixId(id) => seq![3u8] + id.0@,
        DictionaryReference::SerializedId(id) => seq![3u8] + id.0@,
        DictionaryReference::PrefixResource(offset) => varint::encoded(offset as int),
        DictionaryReference::SerializedResource(offset) => varint::encoded(offset as int),
        DictionaryReference::PrefixChunk(offset) => varint::encoded(offset as int),
    }
}

/// References as a header holds them.
pub open spec fn listed_references(references: Seq<DictionaryReference>) -> Seq<u8>
    decreases references.len(),
{
    if references.len() == 0 {
        Seq::empty()
    } else {
        listed_references(references.drop_last()) + reference_bytes(references.last())
    }
}

/// Returns whether some bytes are text.
///
/// `std::str::from_utf8` accepts exactly the byte strings that are valid UTF-8.
#[verifier::external_body]
fn is_text(bytes: &[u8]) -> (text: bool)
    ensures
        text == vstd::utf8::valid_utf8(bytes@),
{
    std::str::from_utf8(bytes).is_ok()
}

/// A capital letter.
pub open spec fn is_capital(byte: u8) -> bool {
    0x41 <= byte <= 0x5A
}

/// A field name in capitals, free for any use.
pub open spec fn is_free(field: MetadataField) -> bool {
    is_capital(field.code@[0]) && is_capital(field.code@[1])
}

/// The name of a resource.
pub open spec fn is_name(field: MetadataField) -> bool {
    field.code@[0] == 0x69 && field.code@[1] == 0x64
}

/// The modification time of a resource.
pub open spec fn is_time(field: MetadataField) -> bool {
    field.code@[0] == 0x6D && field.code@[1] == 0x74
}

/// Which reserved fields came before.
pub open spec fn seen_in(kind: MetadataKind, fields: Seq<MetadataField>) -> (bool, bool)
    decreases fields.len(),
{
    if fields.len() == 0 {
        (false, false)
    } else {
        let (name, time) = seen_in(kind, fields.drop_last());
        let reserved = kind == MetadataKind::Resource && !is_free(fields.last());
        (
            name || (reserved && is_name(fields.last())),
            time || (reserved && is_time(fields.last())),
        )
    }
}

/// A field may follow some others: its name is free, or it is the first name or
/// time of a resource and well formed.
pub open spec fn may_follow(
    kind: MetadataKind,
    earlier: Seq<MetadataField>,
    field: MetadataField,
) -> bool {
    let (name, time) = seen_in(kind, earlier);
    ||| is_free(field)
    ||| kind == MetadataKind::Resource && is_name(field) && !name && vstd::utf8::valid_utf8(
        field.value@,
    )
    ||| kind == MetadataKind::Resource && is_time(field) && !time && field.value@.len() == 8
}

/// Every field may follow those before it.
pub open spec fn fields_ok(kind: MetadataKind, fields: Seq<MetadataField>) -> bool
    decreases fields.len(),
{
    fields.len() > 0 ==> fields_ok(kind, fields.drop_last()) && may_follow(
        kind,
        fields.drop_last(),
        fields.last(),
    )
}

/// Fields on the wire: name, length, value.
pub open spec fn fields_content(fields: Seq<MetadataField>) -> Seq<u8>
    decreases fields.len(),
{
    if fields.len() == 0 {
        Seq::empty()
    } else {
        fields_content(fields.drop_last()) + fields.last().code@ + varint::encoded(
            fields.last().value@.len() as int,
        ) + fields.last().value@
    }
}

/// The first byte of a metadata chunk.
pub open spec fn metadata_code(kind: MetadataKind) -> u8 {
    match kind {
        MetadataKind::Resource => 1,
        MetadataKind::Footer => 6,
        MetadataKind::Global => 7,
    }
}

/// Checks the fields of a metadata chunk, and returns how long they are on the
/// wire.
fn check_fields(kind: MetadataKind, fields: &[MetadataField]) -> (result: Result<
    usize,
    FramingError,
>)
    ensures
        match result {
            Ok(length) => fields_ok(kind, fields@) && length == fields_content(fields@).len(),
            Err(error) => {
                ||| error == FramingError::Invalid("invalid or duplicate reserved metadata field")
                    && !fields_ok(kind, fields@)
                ||| error == FramingError::Overflow && fields_content(fields@).len() > usize::MAX
            },
        },
{
    let mut length: usize = 0;
    let mut name: bool = false;
    let mut modified: bool = false;
    let mut i: usize = 0;
    assert(fields@.take(0) =~= Seq::empty());
    while i < fields.len()
        invariant
            i <= fields@.len(),
            (name, modified) == seen_in(kind, fields@.take(i as int)),
            fields_ok(kind, fields@.take(i as int)),
            length == fields_content(fields@.take(i as int)).len(),
        decreases fields@.len() - i,
    {
        let field: MetadataField = fields[i];
        proof {
            assert(fields@.take(i + 1).drop_last() =~= fields@.take(i as int));
            assert(fields@.take(i + 1).last() == field);
        }
        let a: u8 = field.code[0];
        let b: u8 = field.code[1];
        let free: bool = a >= 0x41 && a <= 0x5A && b >= 0x41 && b <= 0x5A;
        let resource: bool = matches!(kind, MetadataKind::Resource);
        let valid: bool = if free {
            true
        } else if resource && a == 0x69 && b == 0x64 && !name {
            name = true;
            is_text(field.value)
        } else if resource && a == 0x6D && b == 0x74 && !modified {
            modified = true;
            field.value.len() == 8
        } else {
            false
        };
        if !valid {
            proof {
                lemma_fields_prefix(kind, fields@, i + 1);
            }
            return Err(FramingError::Invalid("invalid or duplicate reserved metadata field"));
        }
        let grown: Option<usize> = match length.checked_add(
            2 + encoded_len(field.value.len() as u64),
        ) {
            None => None,
            Some(longer) => longer.checked_add(field.value.len()),
        };
        match grown {
            None => {
                proof {
                    lemma_content_prefix(fields@, i + 1);
                }
                return Err(FramingError::Overflow);
            },
            Some(longer) => {
                length = longer;
            },
        }
        i += 1;
    }
    assert(fields@.take(fields@.len() as int) =~= fields@);
    Ok(length)
}

/// Fields that are all right start with fields that are.
proof fn lemma_fields_prefix(kind: MetadataKind, fields: Seq<MetadataField>, n: int)
    requires
        0 <= n <= fields.len(),
    ensures
        fields_ok(kind, fields) ==> fields_ok(kind, fields.take(n)),
    decreases fields.len(),
{
    if n < fields.len() {
        lemma_fields_prefix(kind, fields.drop_last(), n);
        assert(fields.drop_last().take(n) =~= fields.take(n));
    } else {
        assert(fields.take(n) =~= fields);
    }
}

/// The first fields take no more than all.
proof fn lemma_content_prefix(fields: Seq<MetadataField>, n: int)
    requires
        0 <= n <= fields.len(),
    ensures
        fields_content(fields.take(n)).len() <= fields_content(fields).len(),
    decreases fields.len(),
{
    if n < fields.len() {
        lemma_content_prefix(fields.drop_last(), n);
        assert(fields.drop_last().take(n) =~= fields.take(n));
    } else {
        assert(fields.take(n) =~= fields);
    }
}

/// Returns the content of a metadata chunk.
fn write_fields(fields: &[MetadataField]) -> (content: Vec<u8>)
    ensures
        content@ == fields_content(fields@),
{
    let mut content: Vec<u8> = Vec::new();
    let mut i: usize = 0;
    assert(fields@.take(0) =~= Seq::empty());
    while i < fields.len()
        invariant
            i <= fields@.len(),
            content@ == fields_content(fields@.take(i as int)),
        decreases fields@.len() - i,
    {
        let field: MetadataField = fields[i];
        let ghost before = content@;
        content.extend_from_slice(&field.code);
        push_length(field.value.len(), &mut content);
        content.extend_from_slice(field.value);
        proof {
            assert(fields@.take(i + 1).drop_last() =~= fields@.take(i as int));
            assert(content@ =~= fields_content(fields@.take(i + 1)));
        }
        i += 1;
    }
    assert(fields@.take(fields@.len() as int) =~= fields@);
    content
}

/// Appends a length.
fn push_length(value: usize, output: &mut Vec<u8>)
    ensures
        final(output)@ == old(output)@ + varint::encoded(value as int),
{
    let ghost before = output@;
    let mut rest: usize = value;
    assert(before + varint::encoded(value as int) =~= output@ + varint::encoded(rest as int));
    while rest >= 128
        invariant
            before + varint::encoded(value as int) == output@ + varint::encoded(rest as int),
        decreases rest,
    {
        let ghost held = output@;
        let byte: u8 = (128 + rest % 128) as u8;
        output.push(byte);
        proof {
            assert(held + (seq![byte] + varint::encoded(rest as int / 128)) =~= output@
                + varint::encoded(rest as int / 128));
        }
        rest = rest / 128;
    }
    output.push(rest as u8);
    assert(output@ =~= before + varint::encoded(value as int));
}

impl<W: Sink> Container<W> {
    /// Why metadata cannot come here, if it cannot.
    pub open spec fn refuses_metadata(&self, kind: MetadataKind) -> Option<FramingError> {
        if !self.is_idle() {
            Some(
                FramingError::Invalid(
                    "resource is unfinished, abandoned, or container is finishing",
                ),
            )
        } else if !self.config.container {
            Some(FramingError::Invalid("metadata requires a container footer"))
        } else if self.metadata_pending || (kind == MetadataKind::Footer && !self.after_resource) {
            Some(FramingError::Invalid("metadata is not adjacent to its resource"))
        } else {
            None
        }
    }

    /// Why fields cannot be queued before the sink is asked, if they cannot.
    pub open spec fn refuses_fields(&self, kind: MetadataKind, fields: Seq<MetadataField>) -> Option<
        FramingError,
    > {
        let length = fields_content(fields).len();
        if self.refuses_metadata(kind) is Some {
            self.refuses_metadata(kind)
        } else if !fields_ok(kind, fields) {
            Some(FramingError::Invalid("invalid or duplicate reserved metadata field"))
        } else if self.metadata_bytes + length > usize::MAX {
            Some(FramingError::Overflow)
        } else if self.metadata_bytes + length > self.config.max_metadata_bytes {
            Some(FramingError::Limit("metadata bytes"))
        } else if self.has_no_room(saturated(4 * (length as int))) {
            Some(FramingError::Limit("retained framing bytes"))
        } else {
            None
        }
    }

    /// What queueing metadata leaves of a container.
    ///
    /// Fields too long for a machine word are refused, with either of two errors.
    pub open spec fn queues_metadata(
        &self,
        before: &Self,
        kind: MetadataKind,
        fields: Seq<MetadataField>,
        result: Result<(), FramingError>,
    ) -> bool {
        let header = seq![metadata_code(kind), 0u8];
        let content = fields_content(fields);
        &&& self.wf()
        &&& self.passes_on(before)
        &&& before.refuses_fields(kind, fields) is Some ==> result is Err && *self == *before
        &&& before.refuses_fields(kind, fields) is Some && (before.refuses_metadata(kind) is Some
            || content.len() <= usize::MAX) ==> result == Err::<(), _>(
            before.refuses_fields(kind, fields)->0,
        )
        // Otherwise only the sink, or a limit once everything before is on its way, can
        // keep it from being queued.
        &&& before.refuses_fields(kind, fields) is None ==> self.sink_stopped(before, result) || (
        match before.refuses_next(header, content, true) {
            Some(error) => result == Err::<(), _>(error) && self.pending@.len() == 0,
            None => result is Ok,
        })
        &&& before.pending@.len() == 0 ==> if result is Ok {
            self.sent == before.sent
        } else {
            *self == *before
        }
        &&& result is Err ==> self.wire() == before.wire() && self.only_drained(before)
        &&& result is Ok ==> {
            &&& self.has_queued(before, header, content, true)
            &&& self.metadata_bytes == before.metadata_bytes + content.len()
            &&& self.metadata_pending == (kind == MetadataKind::Resource)
            &&& !self.after_resource
            &&& *self == (Container {
                writer: self.writer,
                pending: self.pending,
                cursor: self.cursor,
                pending_capacity: self.pending_capacity,
                offset: self.offset,
                chunks: self.chunks,
                records: self.records,
                record_capacity: self.record_capacity,
                retained: self.retained,
                after_resource: self.after_resource,
                metadata_pending: self.metadata_pending,
                metadata_bytes: self.metadata_bytes,
                sent: self.sent,
                ..*before
            })
        }
    }

    /// Queues metadata about the next resource, the last one, or the container.
    ///
    /// Metadata of a resource comes right before or right after it. Names in
    /// capitals are free; a resource may have one name and one time.
    #[verifier::rlimit(60)]
    pub fn metadata(&mut self, kind: MetadataKind, fields: &[MetadataField]) -> (result: Result<
        (),
        FramingError,
    >)
        requires
            old(self).wf(),
        ensures
            final(self).queues_metadata(old(self), kind, fields@, result),
    {
        proof {
            Self::lemma_stayed(old(self), self);
        }
        match self.idle() {
            Err(error) => return Err(error),
            Ok(_) => {},
        }
        if !self.config.container {
            return Err(FramingError::Invalid("metadata requires a container footer"));
        }
        if self.metadata_pending || (matches!(kind, MetadataKind::Footer) && !self.after_resource) {
            return Err(FramingError::Invalid("metadata is not adjacent to its resource"));
        }
        let length: usize = match check_fields(kind, fields) {
            Err(error) => return Err(error),
            Ok(length) => length,
        };
        let total: usize = match self.metadata_bytes.checked_add(length) {
            None => return Err(FramingError::Overflow),
            Some(total) => total,
        };
        if total > self.config.max_metadata_bytes {
            return Err(FramingError::Limit("metadata bytes"));
        }
        match self.check_buffer(times(length, 4).saturating_add(SCRATCH_BYTES)) {
            Err(error) => return Err(error),
            Ok(_) => {},
        }
        match self.drain() {
            Err(error) => return Err(error),
            Ok(_) => {},
        }
        let content: Vec<u8> = write_fields(fields);
        let mut header: Vec<u8> = Vec::new();
        header.push(
            match kind {
                MetadataKind::Resource => 1,
                MetadataKind::Footer => 6,
                MetadataKind::Global => 7,
            },
        );
        header.push(0);
        assert(header@ =~= seq![metadata_code(kind), 0u8]);
        let ghost drained = *self;
        let queued = self.queue(header, content.as_slice(), true);
        proof {
            Self::lemma_stayed(&drained, self);
            Self::lemma_passed_on(old(self), &drained, self);
        }
        match queued {
            Err(error) => return Err(error),
            Ok(_) => {},
        }
        self.metadata_bytes = total;
        self.metadata_pending = matches!(kind, MetadataKind::Resource);
        self.after_resource = false;
        Ok(())
    }
}

/// A chunk that is repeated before the directory.
pub open spec fn is_repeated(record: Record) -> bool {
    record.kind == 1 || record.kind == 6
}

/// The repetition of a chunk.
pub open spec fn repetition(record: Record) -> Seq<u8> {
    if is_repeated(record) {
        chunk_of(seq![8u8, 0, record.kind], record.metadata@)
    } else {
        Seq::empty()
    }
}

/// The repetitions of the records from one on.
pub open spec fn repetitions(records: Seq<Record>, from: int) -> Seq<u8>
    decreases records.len() - from,
{
    if from >= records.len() {
        Seq::empty()
    } else {
        repetition(records[from]) + repetitions(records, from + 1)
    }
}

/// Some record from one on is repeated.
pub open spec fn repeats_from(records: Seq<Record>, from: int) -> bool {
    exists|i: int| from <= i < records.len() && is_repeated(#[trigger] records[i])
}

/// The directory's entries.
pub open spec fn entries(records: Seq<Record>) -> Seq<u8>
    decreases records.len(),
{
    if records.len() == 0 {
        Seq::empty()
    } else {
        let record = records.last();
        entries(records.drop_last()) + varint::encoded(record.offset as int) + varint::encoded(
            record.header@.len() as int,
        ) + record.header@
    }
}

/// The most the directory's entries take.
pub open spec fn entries_bound(records: Seq<Record>) -> int
    decreases records.len(),
{
    if records.len() == 0 {
        0
    } else {
        entries_bound(records.drop_last()) + records.last().header@.len() + 18
    }
}

/// More records take no less.
proof fn lemma_entries_bound(records: Seq<Record>, n: int)
    requires
        0 <= n <= records.len(),
    ensures
        0 <= entries_bound(records.take(n)) <= entries_bound(records),
    decreases records.len(),
{
    if n == records.len() {
        assert(records.take(n) =~= records);
        if n > 0 {
            lemma_entries_bound(records.drop_last(), n - 1);
        }
    } else {
        assert(records.drop_last().take(n) =~= records.take(n));
        lemma_entries_bound(records.drop_last(), n);
    }
}

impl<W> Container<W> {
    /// Where the repeated metadata starts once it is written.
    pub open spec fn repeat_start(&self) -> int {
        if self.repeat_offset == 0 && repeats_from(self.records@, self.repeat_cursor as int) {
            self.offset as int
        } else {
            self.repeat_offset as int
        }
    }

    /// What a container was made of is as it was.
    pub open spec fn kept_from(&self, before: &Self) -> bool {
        &&& self.config == before.config
        &&& self.records == before.records
        &&& self.record_capacity == before.record_capacity
        &&& self.retained == before.retained
        &&& self.active == before.active
        &&& self.metadata_pending == before.metadata_pending
        &&& self.resources == before.resources
        &&& self.metadata_bytes == before.metadata_bytes
        &&& self.after_resource == before.after_resource
    }

    /// Everything but the bytes on their way and the marks of progress is as it was.
    pub open spec fn closing_from(&self, before: &Self) -> bool {
        &&& self.kept_from(before)
        &&& self.finishing == before.finishing
        &&& self.writer == before.writer
    }

    /// Why the next record's repetition cannot be queued, if it cannot.
    pub open spec fn refuses_repetition(&self) -> Option<FramingError> {
        let record = self.records@[self.repeat_cursor as int];
        if !is_repeated(record) {
            None
        } else if self.has_no_room(saturated(3 * (record.metadata@.len() as int))) {
            Some(FramingError::Limit("retained framing bytes"))
        } else {
            self.refuses_next(seq![8u8, 0, record.kind], record.metadata@, false)
        }
    }

    /// Looks at the next record, and queues its repetition if it is repeated.
    pub fn repeat_next(&mut self) -> (result: Result<(), FramingError>)
        requires
            old(self).wf(),
            old(self).pending@.len() == 0,
            old(self).repeat_cursor < old(self).records@.len(),
        ensures
            final(self).wf(),
            final(self).closing_from(old(self)),
            final(self).directory_done == old(self).directory_done,
            final(self).directory_offset == old(self).directory_offset,
            final(self).finished == old(self).finished,
            final(self).sent@ == old(self).sent@,
            result is Err ==> *final(self) == *old(self),
            match old(self).refuses_repetition() {
                Some(error) => result == Err::<(), _>(error),
                None => result is Ok,
            },
            result is Ok ==> {
                let record = old(self).records@[old(self).repeat_cursor as int];
                &&& final(self).repeat_cursor == old(self).repeat_cursor + 1
                &&& final(self).wire() == old(self).wire() + repetition(record)
                &&& final(self).repeat_offset == if is_repeated(record)
                    && old(self).repeat_offset == 0 {
                    old(self).offset
                } else {
                    old(self).repeat_offset
                }
                &&& if is_repeated(record) {
                    final(self).has_queued(
                        old(self),
                        seq![8u8, 0, record.kind],
                        record.metadata@,
                        false,
                    )
                } else {
                    final(self).offset == old(self).offset && final(self).chunks
                        == old(self).chunks && final(self).pending_capacity
                        == old(self).pending_capacity
                }
            },
    {
        let ghost records = self.records@;
        let held: usize = self.records.len();
        let at: usize = self.repeat_cursor;
        assert(at < held);
        let ghost before = *self;
        let kind: u8 = self.records[at].kind;
        if kind == 1 || kind == 6 {
            let size: usize = self.records[at].metadata.len();
            match self.check_buffer(times(size, 3).saturating_add(SCRATCH_BYTES)) {
                Err(error) => return Err(error),
                Ok(_) => {},
            }
            let mut header: Vec<u8> = Vec::new();
            header.push(8);
            header.push(0);
            header.push(kind);
            assert(header@ =~= seq![8u8, 0, kind]);
            let mut content: Vec<u8> = Vec::new();
            content.extend_from_slice(self.records[at].metadata.as_slice());
            assert(content@ =~= records[at as int].metadata@);
            let start: u64 = self.offset;
            match self.queue(header, content.as_slice(), false) {
                Err(error) => return Err(error),
                Ok(_) => {},
            }
            if self.repeat_offset == 0 {
                self.repeat_offset = start;
            }
            assert(is_repeated(records[at as int]));
        }
        self.repeat_cursor = at + 1;
        proof {
            assert(self.wire() =~= before.wire() + repetition(records[at as int]));
        }
        Ok(())
    }

    /// The content of the directory.
    pub open spec fn directory_content(&self) -> Seq<u8> {
        varint::encoded(self.repeat_offset as int) + entries(self.records@)
    }

    /// Why the directory cannot be queued, if it cannot.
    pub open spec fn refuses_directory(&self) -> Option<FramingError> {
        let bound = 9 + entries_bound(self.records@);
        if bound > usize::MAX {
            Some(FramingError::Overflow)
        } else if self.has_no_room(saturated(3 * bound)) {
            Some(FramingError::Limit("retained framing bytes"))
        } else {
            self.refuses_next(seq![9u8], self.directory_content(), false)
        }
    }

    /// Queues the directory of all chunks.
    pub fn queue_directory(&mut self) -> (result: Result<(), FramingError>)
        requires
            old(self).wf(),
            old(self).pending@.len() == 0,
        ensures
            final(self).wf(),
            final(self).closing_from(old(self)),
            final(self).repeat_cursor == old(self).repeat_cursor,
            final(self).repeat_offset == old(self).repeat_offset,
            final(self).finished == old(self).finished,
            final(self).sent@ == old(self).sent@,
            result is Err ==> *final(self) == *old(self),
            match old(self).refuses_directory() {
                Some(error) => result == Err::<(), _>(error),
                None => result is Ok,
            },
            result is Ok ==> {
                &&& final(self).directory_done
                &&& final(self).directory_offset == old(self).offset
                &&& final(self).has_queued(
                    old(self),
                    seq![9u8],
                    old(self).directory_content(),
                    false,
                )
            },
    {
        let mut bound: usize = 9;
        let mut i: usize = 0;
        while i < self.records.len()
            invariant
                *self == *old(self),
                self.wf(),
                i <= self.records@.len(),
                bound == 9 + entries_bound(self.records@.take(i as int)),
            decreases self.records@.len() - i,
        {
            proof {
                assert(self.records@.take(i + 1).drop_last() =~= self.records@.take(i as int));
                assert(self.records@.take(i + 1).last() == self.records@[i as int]);
                lemma_entries_bound(self.records@, i + 1);
            }
            let more: Option<usize> = match self.records[i].header.len().checked_add(18) {
                None => None,
                Some(entry) => bound.checked_add(entry),
            };
            match more {
                None => return Err(FramingError::Overflow),
                Some(sum) => {
                    bound = sum;
                },
            }
            i += 1;
        }
        assert(self.records@.take(self.records@.len() as int) =~= self.records@);
        match self.check_buffer(times(bound, 3).saturating_add(SCRATCH_BYTES)) {
            Err(error) => return Err(error),
            Ok(_) => {},
        }
        let mut content: Vec<u8> = Vec::new();
        let _ = number(self.repeat_offset, &mut content);
        i = 0;
        proof {
            assert(self.records@.take(0) =~= Seq::empty());
            assert(content@ =~= varint::encoded(self.repeat_offset as int) + entries(
                self.records@.take(0),
            ));
        }
        while i < self.records.len()
            invariant
                *self == *old(self),
                self.wf(),
                i <= self.records@.len(),
                content@ == varint::encoded(self.repeat_offset as int) + entries(
                    self.records@.take(i as int),
                ),
            decreases self.records@.len() - i,
        {
            let ghost before = content@;
            let ghost record = self.records@[i as int];
            assert(record.offset <= self.offset);
            let _ = number(self.records[i].offset, &mut content);
            push_length(self.records[i].header.len(), &mut content);
            content.extend_from_slice(self.records[i].header.as_slice());
            proof {
                assert(self.records@.take(i + 1).drop_last() =~= self.records@.take(i as int));
                assert(self.records@.take(i + 1).last() == record);
                assert(content@ =~= varint::encoded(self.repeat_offset as int) + entries(
                    self.records@.take(i + 1),
                ));
            }
            i += 1;
        }
        let start: u64 = self.offset;
        let mut header: Vec<u8> = Vec::new();
        header.push(9);
        assert(header@ =~= seq![9u8]);
        match self.queue(header, content.as_slice(), false) {
            Err(error) => return Err(error),
            Ok(_) => {},
        }
        self.directory_offset = start;
        self.directory_done = true;
        Ok(())
    }

    /// Why the footer cannot be queued, if it cannot.
    pub open spec fn refuses_footer(&self) -> Option<FramingError> {
        let at = self.offset as int;
        let table = self.directory_offset as int;
        if forall|size: int| !#[trigger] footer_size(at, table, size) {
            Some(FramingError::Overflow)
        } else {
            self.refuses_next(
                seq![10u8],
                footer_content(stated_size(at, table), table),
                false,
            )
        }
    }

    /// Queues the footer, which states how long the stream is with it.
    pub fn queue_footer(&mut self) -> (result: Result<(), FramingError>)
        requires
            old(self).wf(),
            old(self).pending@.len() == 0,
        ensures
            final(self).wf(),
            final(self).closing_from(old(self)),
            final(self).repeat_cursor == old(self).repeat_cursor,
            final(self).repeat_offset == old(self).repeat_offset,
            final(self).directory_done == old(self).directory_done,
            final(self).directory_offset == old(self).directory_offset,
            final(self).sent@ == old(self).sent@,
            result is Err ==> *final(self) == *old(self),
            match old(self).refuses_footer() {
                Some(error) => result == Err::<(), _>(error),
                None => {
                    let size = stated_size(
                        old(self).offset as int,
                        old(self).directory_offset as int,
                    );
                    &&& result is Ok
                    &&& final(self).finished
                    &&& final(self).offset == size
                    &&& least_size(old(self).offset as int, old(self).directory_offset as int, size)
                    &&& final(self).has_queued(
                        old(self),
                        seq![10u8],
                        footer_content(size, old(self).directory_offset as int),
                        false,
                    )
                },
            },
    {
        let content: Vec<u8> = match footer(self.offset, self.directory_offset) {
            Err(error) => return Err(error),
            Ok(content) => content,
        };
        let mut header: Vec<u8> = Vec::new();
        header.push(10);
        assert(header@ =~= seq![10u8]);
        let ghost at = self.offset as int;
        let ghost table = self.directory_offset as int;
        let ghost size = stated_size(at, table);
        match self.queue(header, content.as_slice(), false) {
            Err(error) => return Err(error),
            Ok(_) => {},
        }
        assert(self.offset == size) by {
            assert(chunk_of(seq![10u8], content@).len() == self.offset - at);
        }
        self.finished = true;
        Ok(())
    }
}

impl<W> Container<W> {
    /// Moves bytes on their way into `output`, and returns how many.
    pub fn pull(&mut self, output: &mut [u8], filled: usize) -> (end: usize)
        requires
            old(self).wf(),
            filled <= old(output)@.len(),
        ensures
            final(self).wf(),
            final(self).wire() == old(self).wire(),
            *final(self) == (Container {
                pending: final(self).pending,
                cursor: final(self).cursor,
                sent: final(self).sent,
                ..*old(self)
            }),
            filled <= end <= final(output)@.len(),
            final(output)@.len() == old(output)@.len(),
            final(output)@.take(filled as int) == old(output)@.take(filled as int),
            final(output)@.skip(end as int) == old(output)@.skip(end as int),
            final(self).sent@ == old(self).sent@ + final(output)@.subrange(
                filled as int,
                end as int,
            ),
            final(self).pending@.len() > 0 ==> end == final(output)@.len() && final(self).waiting().len() > 0,
            final(self).pending@.len() == 0 ==> end - filled == old(self).waiting().len(),
    {
        let size: usize = self.pending.len();
        let left: usize = size - self.cursor;
        let room: usize = output.len() - filled;
        let count: usize = if left < room {
            left
        } else {
            room
        };
        let ghost before = output@;
        let ghost held = self.waiting();
        let top: usize = output.len();
        let mut k: usize = 0;
        while k < count
            invariant
                k <= count,
                top == output@.len(),
                filled + count <= output@.len(),
                self.cursor + count <= self.pending@.len(),
                size == self.pending@.len(),
                output@.len() == before.len(),
                forall|i: int|
                    0 <= i < filled || filled + k <= i < output@.len() ==> #[trigger] output@[i]
                        == before[i],
                forall|i: int|
                    filled <= i < filled + k ==> #[trigger] output@[i] == self.pending@[self.cursor
                        + i - filled],
            decreases count - k,
        {
            output[filled + k] = self.pending[self.cursor + k];
            k += 1;
        }
        let ghost part = output@.subrange(filled as int, filled + count);
        proof {
            assert(part =~= held.take(count as int));
            assert(output@.take(filled as int) =~= before.take(filled as int));
            assert(output@.skip(filled + count) =~= before.skip(filled + count));
        }
        self.cursor = self.cursor + count;
        self.sent = Ghost(self.sent@ + part);
        if self.cursor == size {
            self.pending.clear();
            self.cursor = 0;
        }
        proof {
            assert(self.waiting() =~= held.skip(count as int));
            assert(held =~= held.take(count as int) + held.skip(count as int));
            assert(self.wire() =~= old(self).wire());
        }
        filled + count
    }
}

impl<W> Container<W> {
    /// The stream once the metadata is repeated.
    pub open spec fn repeated(&self) -> Seq<u8> {
        self.wire() + if self.config.repeat_metadata {
            repetitions(self.records@, self.repeat_cursor as int)
        } else {
            Seq::empty()
        }
    }

    /// Where the repeated metadata starts, as the directory will say.
    pub open spec fn repeat_mark(&self) -> int {
        if self.config.repeat_metadata {
            self.repeat_start()
        } else {
            self.repeat_offset as int
        }
    }

    /// The directory is still to come.
    pub open spec fn owes_directory(&self) -> bool {
        self.config.central_directory && !self.directory_done
    }

    /// The stream up to its footer.
    pub open spec fn listed(&self) -> Seq<u8> {
        if self.owes_directory() {
            self.repeated() + chunk_of(
                seq![9u8],
                varint::encoded(self.repeat_mark()) + entries(self.records@),
            )
        } else {
            self.repeated()
        }
    }

    /// Where the directory starts, as the footer will say.
    pub open spec fn directory_mark(&self) -> int {
        if self.owes_directory() {
            self.repeated().len() as int
        } else {
            self.directory_offset as int
        }
    }

    /// The whole stream once ended: the repeated metadata, a directory of all
    /// chunks, and a footer that states how long the stream is.
    pub open spec fn whole(&self) -> Seq<u8> {
        if self.finished || !self.config.container {
            self.wire()
        } else {
            self.listed() + chunk_of(
                seq![10u8],
                footer_content(
                    stated_size(self.listed().len() as int, self.directory_mark()),
                    self.directory_mark(),
                ),
            )
        }
    }

    /// How many steps are left to the end.
    pub open spec fn steps_left(&self) -> int {
        self.records@.len() - self.repeat_cursor + (if self.directory_done {
            0int
        } else {
            1
        }) + (if self.finished {
            0int
        } else {
            1
        })
    }

    /// Why a container cannot be ended, if it cannot.
    pub open spec fn refuses_end(&self) -> Option<FramingError> {
        if self.active || self.metadata_pending {
            Some(FramingError::Invalid("resource is missing, unfinished, or abandoned"))
        } else if !self.config.container && self.resources != 1 {
            Some(FramingError::Invalid("single-resource profile requires exactly one resource"))
        } else {
            None
        }
    }

    /// Why the next step to the end cannot be taken, if it cannot.
    pub open spec fn refuses_step(&self) -> Option<FramingError> {
        if self.config.repeat_metadata && self.repeat_cursor < self.records@.len() {
            self.refuses_repetition()
        } else if self.owes_directory() {
            self.refuses_directory()
        } else {
            self.refuses_footer()
        }
    }

    /// The container once a chunk was queued on the way to the end and went off, as far
    /// as the end depends on it.
    pub open spec fn advanced(&self, header: Seq<u8>, content: Seq<u8>) -> Container<W> {
        Container {
            offset: (self.offset + Self::wire_len(header, content)) as u64,
            chunks: (self.chunks + 1) as u64,
            pending_capacity: Self::wire_len(header, content) as usize,
            ..*self
        }
    }

    /// The container after the next step to the end, as far as the end depends on it.
    pub open spec fn stepped(&self) -> Container<W> {
        if self.config.repeat_metadata && self.repeat_cursor < self.records@.len() {
            let record = self.records@[self.repeat_cursor as int];
            if is_repeated(record) {
                Container {
                    repeat_cursor: (self.repeat_cursor + 1) as usize,
                    repeat_offset: if self.repeat_offset == 0 {
                        self.offset
                    } else {
                        self.repeat_offset
                    },
                    ..self.advanced(seq![8u8, 0, record.kind], record.metadata@)
                }
            } else {
                Container { repeat_cursor: (self.repeat_cursor + 1) as usize, ..*self }
            }
        } else if self.owes_directory() {
            Container {
                directory_done: true,
                directory_offset: self.offset,
                ..self.advanced(seq![9u8], self.directory_content())
            }
        } else {
            let table = self.directory_offset as int;
            Container {
                finished: true,
                ..self.advanced(
                    seq![10u8],
                    footer_content(stated_size(self.offset as int, table), table),
                )
            }
        }
    }

    /// The limit that keeps the container from being ended, if one does.
    pub open spec fn stopped_by(&self) -> Option<FramingError>
        decreases self.steps_left(),
        when self.repeat_cursor <= self.records@.len() <= usize::MAX
    {
        if self.finished || !self.config.container {
            None
        } else if self.refuses_step() is Some {
            self.refuses_step()
        } else {
            self.stepped().stopped_by()
        }
    }

    /// Two containers are ended alike.
    pub open spec fn ends_like(&self, other: &Self) -> bool {
        &&& self.config == other.config
        &&& self.records == other.records
        &&& self.retained == other.retained
        &&& self.record_capacity == other.record_capacity
        &&& self.offset == other.offset
        &&& self.chunks == other.chunks
        &&& self.pending_capacity == other.pending_capacity
        &&& self.repeat_cursor == other.repeat_cursor
        &&& self.repeat_offset == other.repeat_offset
        &&& self.directory_done == other.directory_done
        &&& self.directory_offset == other.directory_offset
        &&& self.finished == other.finished
    }

    /// Containers that are ended alike are stopped alike.
    pub proof fn lemma_ends_like(&self, other: &Self)
        requires
            self.ends_like(other),
            self.repeat_cursor <= self.records@.len() <= usize::MAX,
        ensures
            self.stopped_by() == other.stopped_by(),
        decreases self.steps_left(),
    {
        if !self.finished && self.config.container && self.refuses_step() is None {
            self.stepped().lemma_ends_like(&other.stepped());
        }
    }

    /// Takes the next step to the end: repeats some metadata, lists the chunks, or
    /// closes the stream.
    #[verifier::rlimit(40)]
    pub fn close_next(&mut self) -> (result: Result<(), FramingError>)
        requires
            old(self).wf(),
            old(self).pending@.len() == 0,
            old(self).config.container,
            !old(self).finished,
        ensures
            final(self).wf(),
            final(self).closing_from(old(self)),
            final(self).sent@ == old(self).sent@,
            final(self).writer == old(self).writer,
            result is Err ==> *final(self) == *old(self),
            match old(self).refuses_step() {
                Some(error) => result == Err::<(), _>(error),
                None => result is Ok,
            },
            result is Ok ==> {
                &&& final(self).whole() == old(self).whole()
                &&& final(self).steps_left() < old(self).steps_left()
                &&& final(self).ends_like(&old(self).stepped())
                &&& final(self).finished ==> final(self).offset == final(self).wire().len()
                    && footer_size(
                    old(self).offset as int,
                    final(self).directory_offset as int,
                    final(self).offset as int,
                )
            },
    {
        let ghost before = *self;
        if self.config.repeat_metadata && self.repeat_cursor < self.records.len() {
            match self.repeat_next() {
                Err(error) => return Err(error),
                Ok(_) => {},
            }
            proof {
                let records = self.records@;
                let at = before.repeat_cursor as int;
                lemma_repeats_step(records, at);
                assert(before.wire() + (repetition(records[at]) + repetitions(records, at + 1))
                    =~= self.wire() + repetitions(records, at + 1));
                assert(self.repeated() == before.repeated());
                assert(self.repeat_mark() == before.repeat_mark());
            }
            return Ok(());
        }
        proof {
            if self.config.repeat_metadata {
                assert(repetitions(self.records@, self.repeat_cursor as int) =~= Seq::empty());
            }
            assert(self.repeated() =~= self.wire());
        }
        if self.config.central_directory && !self.directory_done {
            match self.queue_directory() {
                Err(error) => return Err(error),
                Ok(_) => {},
            }
            proof {
                assert(!repeats_from(before.records@, before.repeat_cursor as int)
                    || !before.config.repeat_metadata);
                if self.config.repeat_metadata {
                    assert(repetitions(self.records@, self.repeat_cursor as int) =~= Seq::empty());
                }
                assert(self.repeated() =~= self.wire());
                assert(self.listed() =~= before.listed());
            }
            return Ok(());
        }
        match self.queue_footer() {
            Err(error) => return Err(error),
            Ok(_) => {},
        }
        assert(self.whole() =~= before.whole());
        Ok(())
    }
}

impl<W: Sink> Container<W> {
    /// What an attempt to end a container leaves of it: the whole stream is settled
    /// from the start, and only the sink or a limit can keep it from being passed on.
    pub open spec fn ends(&self, before: &Self, result: Result<(), FramingError>) -> bool {
        &&& self.wf()
        &&& self.passes_on(before)
        &&& before.refuses_end() matches Some(error) ==> result == Err::<(), _>(error) && *self
            == *before
        &&& before.refuses_end() is None ==> {
            &&& self.finishing
            &&& self.kept_from(before)
            &&& self.whole() == before.whole()
            &&& match result {
                Ok(_) => self.finished && self.pending@.len() == 0 && self.sent@
                    == before.whole() && W::flushes(Ok(())),
                Err(FramingError::Io(error)) => !before.writer.obliges() && (self.sink_said(error)
                    || self.finished && W::flushes(Err(error))),
                Err(error) => self.config.container && !self.finished && self.pending@.len() == 0
                    && self.refuses_step() == Some(error) && before.stopped_by() == Some(error),
            }
            &&& result is Ok ==> before.stopped_by() is None
            &&& self.stopped_by() == before.stopped_by()
        }
    }

    /// Ends the container: repeats the metadata and lists the chunks where asked
    /// to, and closes with a footer.
    ///
    /// A failed call can be repeated; what was written is not written again.
    pub fn finish(&mut self) -> (result: Result<(), FramingError>)
        requires
            old(self).wf(),
        ensures
            final(self).ends(old(self), result),
    {
        proof {
            Self::lemma_stayed(old(self), self);
        }
        if self.active || self.metadata_pending {
            return Err(FramingError::Invalid("resource is missing, unfinished, or abandoned"));
        }
        if !self.config.container && self.resources != 1 {
            return Err(
                FramingError::Invalid("single-resource profile requires exactly one resource"),
            );
        }
        self.finishing = true;
        let ghost held = *self;
        let drained = self.drain();
        proof {
            Self::lemma_stayed(old(self), &held);
            Self::lemma_passed_on(old(self), &held, self);
            assert(self.records.len() <= usize::MAX);
            self.lemma_ends_like(old(self));
        }
        match drained {
            Err(error) => return Err(error),
            Ok(_) => {},
        }
        while self.config.container && !self.finished
            invariant
                self.wf(),
                self.pending@.len() == 0,
                self.sent@ == self.wire(),
                self.whole() == old(self).whole(),
                self.stopped_by() == old(self).stopped_by(),
                self.kept_from(old(self)),
                self.finishing,
                self.passes_on(old(self)),
                self.config == old(self).config,
                !old(self).active && !old(self).metadata_pending,
                old(self).config.container || old(self).resources == 1,
            decreases self.steps_left(),
        {
            let ghost held = *self;
            assert(self.records.len() <= usize::MAX);
            let closed = self.close_next();
            proof {
                Self::lemma_stayed(&held, self);
                Self::lemma_passed_on(old(self), &held, self);
            }
            match closed {
                Err(error) => return Err(error),
                Ok(_) => {},
            }
            let ghost before = held;
            let ghost held = *self;
            let drained = self.drain();
            proof {
                Self::lemma_passed_on(old(self), &held, self);
                    assert(self.records.len() <= usize::MAX);
                held.lemma_ends_like(&before.stepped());
                self.lemma_ends_like(&held);
            }
            match drained {
                Err(error) => return Err(error),
                Ok(_) => {},
            }
            assert(self.sent@ =~= self.wire());
        }
        self.finished = true;
        assert(self.records.len() <= usize::MAX);
        assert(self.sent@ =~= self.wire());
        let ghost held = *self;
        let flushed = self.writer.flush();
        proof {
            assert(self.sent@.skip(held.sent@.len() as int) =~= Seq::empty());
            assert(held.writer.taken() + Seq::<u8>::empty() =~= held.writer.taken());
            assert(self.sent@.take(held.sent@.len() as int) =~= held.sent@);
            Self::lemma_passed_on(old(self), &held, self);
        }
        match flushed {
            Err(error) => Err(FramingError::Io(error)),
            Ok(done) => {
                assert(done == ());
                Ok(())
            },
        }
    }
}

/// A container that nothing was put into can be ended, if it may have the chunks and
/// the room that takes: it is then its opening, an empty directory where there is one,
/// and a footer.
pub proof fn lemma_empty_container_ends<W>(core: Container<W>, writer: W, config: FramingConfig)
    requires
        core.wf(),
        core.is_fresh(writer, config),
        config.container,
        config.max_chunks >= 2,
        config.max_buffer_bytes >= SCRATCH_BYTES + 27,
    ensures
        core.refuses_end() is None,
        core.stopped_by() is None,
        core.whole() == if config.central_directory {
            seq![0x91u8, 0x0a, 0x42, 0x52, 4, 2, 9, 0, 3, 10, 12, 5]
        } else {
            seq![0x91u8, 0x0a, 0x42, 0x52, 4, 3, 10, 9, 0]
        },
{
    assert(core.records@ =~= Seq::empty());
    assert(entries(core.records@) =~= Seq::empty());
    assert(varint::encoded(0) =~= seq![0u8]);
    assert(core.directory_content() =~= seq![0u8]);
    assert(chunk_of(seq![9u8], seq![0u8]) =~= seq![2u8, 9, 0]) by {
        assert(varint::encoded(2) =~= seq![2u8]);
    }
    assert(core.repeated() =~= core.wire()) by {
        assert(repetitions(core.records@, 0) =~= Seq::empty());
    }
    assert(!repeats_from(core.records@, 0));
    if config.central_directory {
        lemma_small_footer(8, 5, 12);
        assert(core.listed() =~= core.wire() + seq![2u8, 9, 0]);
        assert(core.whole() =~= core.listed() + seq![3u8, 10, 12, 5]);
        assert(core.refuses_directory() is None) by {
            assert(entries_bound(core.records@) == 0);
        }
        let listed = core.stepped();
        lemma_footer_follows(listed, 12);
    } else {
        lemma_small_footer(5, 0, 9);
        assert(core.listed() =~= core.wire());
        assert(core.whole() =~= core.listed() + seq![3u8, 10, 9, 0]);
        lemma_footer_follows(core, 9);
    }
}

/// The footer of a short stream.
proof fn lemma_small_footer(at: int, table: int, size: int)
    requires
        0 <= table <= at,
        at + 4 == size < 100,
    ensures
        footer_size(at, table, size),
        stated_size(at, table) == size,
        footer_content(size, table) == seq![size as u8, table as u8],
        chunk_of(seq![10u8], footer_content(size, table)) == seq![
            3u8,
            10,
            size as u8,
            table as u8,
        ],
{
    assert(varint::encoded(size) =~= seq![size as u8]);
    assert(varint::encoded(table) =~= seq![table as u8]);
    assert(varint::encoded(3) =~= seq![3u8]);
    assert(sized_with(at, table, size) == at + 4);
    assert(footer_size(at, table, size));
    assert forall|other: int| #[trigger] footer_size(at, table, other) implies size <= other by {
        assert(varint::encoded(0) =~= seq![0u8]);
        lemma_sized_grows(at, table, 0, other);
        assert(sized_with(at, table, 0) == at + 4);
    }
    assert(least_size(at, table, size));
    let stated = stated_size(at, table);
    assert(least_size(at, table, stated));
    assert(footer_size(at, table, stated));
    assert(varint::encoded(size).reverse() =~= seq![size as u8]);
    assert(varint::encoded(table).reverse() =~= seq![table as u8]);
    assert(footer_content(size, table) =~= seq![size as u8, table as u8]);
    assert(chunk_of(seq![10u8], footer_content(size, table)) =~= seq![
        3u8,
        10,
        size as u8,
        table as u8,
    ]);
}

/// Where only the footer of a short stream is left, nothing stops it.
proof fn lemma_footer_follows<W>(core: Container<W>, size: int)
    requires
        core.records@.len() == 0,
        core.repeat_cursor == 0,
        core.config.container,
        !core.owes_directory(),
        !core.finished,
        core.directory_offset <= core.offset,
        core.offset + 4 == size < 100,
        core.chunks < core.config.max_chunks,
        core.retained == 0,
        core.pending_capacity <= 5,
        refused_config(core.config) is None,
    ensures
        core.stopped_by() is None,
{
    lemma_small_footer(core.offset as int, core.directory_offset as int, size);
    assert(core.refuses_footer() is None);
    assert(core.refuses_step() is None);
    let closed = core.stepped();
    assert(closed.finished);
    assert(closed.stopped_by() is None);
}

/// The size a footer states is the length of the whole stream, footer and all.
pub proof fn lemma_footer_states_length<W>(core: Container<W>, size: int)
    requires
        core.wf(),
        core.config.container,
        !core.finished,
        footer_size(core.listed().len() as int, core.directory_mark(), size),
        forall|other: int| #[trigger]
            footer_size(core.listed().len() as int, core.directory_mark(), other) ==> size <= other,
    ensures
        core.whole().len() == size,
        stated_size(core.listed().len() as int, core.directory_mark()) == size,
{
    let at = core.listed().len() as int;
    let table = core.directory_mark();
    assert(least_size(at, table, size));
    let stated = stated_size(at, table);
    assert(least_size(at, table, stated));
    assert(footer_size(at, table, stated));
}

/// Passing a record changes whether any is repeated by that record alone.
proof fn lemma_repeats_step(records: Seq<Record>, at: int)
    requires
        0 <= at < records.len(),
    ensures
        repeats_from(records, at) == (is_repeated(records[at]) || repeats_from(records, at + 1)),
{
    if repeats_from(records, at) && !is_repeated(records[at]) {
        let i = choose|i: int| at <= i < records.len() && is_repeated(#[trigger] records[i]);
        assert(is_repeated(records[i]));
    }
    if repeats_from(records, at + 1) {
        let i = choose|i: int| at + 1 <= i < records.len() && is_repeated(#[trigger] records[i]);
        assert(is_repeated(records[i]));
    }
}

} // verus!
