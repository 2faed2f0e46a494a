//! What a container is configured with and made of.
use vstd::prelude::*;

use crate::session::EncodeError;

verus! {

/// What a container looks like and how much it may hold.
#[derive(Copy, Clone, Debug)]
pub struct FramingConfig {
    /// Whether there may be several resources and a footer.
    pub container: bool,
    /// Whether a directory of all chunks is written.
    pub central_directory: bool,
    /// Whether metadata is repeated before the directory.
    pub repeat_metadata: bool,
    /// How much input one chunk takes.
    pub chunk_bytes: usize,
    /// How much metadata a container may have.
    pub max_metadata_bytes: usize,
    /// How much may be kept in memory.
    pub max_buffer_bytes: usize,
    /// How many resources there may be.
    pub max_resources: u64,
    /// How many chunks there may be.
    pub max_chunks: u64,
}

impl Default for FramingConfig {
    /// A container with a directory and room for ordinary resources.
    fn default() -> (config: Self)
        ensures
            config == (FramingConfig {
                container: true,
                central_directory: true,
                repeat_metadata: false,
                chunk_bytes: 65536,
                max_metadata_bytes: 0x10_0000,
                max_buffer_bytes: 0x80_0000,
                max_resources: 10000,
                max_chunks: 1000000,
            }),
    {
        FramingConfig {
            container: true,
            central_directory: true,
            repeat_metadata: false,
            chunk_bytes: 65536,
            max_metadata_bytes: 0x10_0000,
            max_buffer_bytes: 0x80_0000,
            max_resources: 10000,
            max_chunks: 1000000,
        }
    }
}

/// A dictionary's hash.
#[derive(Copy, Clone, Debug, PartialEq, Eq)]
pub struct DictionaryId(pub [u8; 32]);

/// How a resource names a dictionary it was compressed with.
#[derive(Copy, Clone, Debug)]
pub enum DictionaryReference {
    /// A prefix, by its hash.
    PrefixId(DictionaryId),
    /// A serialized dictionary, by its hash.
    SerializedId(DictionaryId),
    /// A prefix, by the offset of the resource that holds it.
    PrefixResource(u64),
    /// A serialized dictionary, by the offset of the resource that holds it.
    SerializedResource(u64),
    /// A prefix, by the offset of the chunk that holds it.
    PrefixChunk(u64),
}

/// How a resource is announced.
#[derive(Copy, Clone, Debug)]
pub struct ResourceOptions {
    /// Whether it is left out of listings.
    pub hidden: bool,
    /// The hash it can be referred to by.
    pub id: Option<DictionaryId>,
}

impl Default for ResourceOptions {
    /// A resource that is listed and has no hash.
    fn default() -> (options: Self)
        ensures
            !options.hidden,
            options.id is None,
    {
        ResourceOptions { hidden: false, id: None }
    }
}

/// What metadata is about.
#[derive(Copy, Clone, Debug, PartialEq, Eq, Structural)]
pub enum MetadataKind {
    /// The resource that follows.
    Resource,
    /// The resource before.
    Footer,
    /// The container.
    Global,
}

/// One piece of metadata.
#[derive(Copy, Clone, Debug)]
pub struct MetadataField<'a> {
    /// Its two-letter name.
    pub code: [u8; 2],
    /// Its value.
    pub value: &'a [u8],
}

/// Why a sink took nothing.
#[derive(Copy, Clone, Debug, PartialEq, Eq, Structural)]
pub enum SinkError {
    /// It accepts nothing any more.
    WriteZero,
    /// It claims to have taken more than it was offered.
    Oversized,
    /// It failed for a reason of its own.
    Failed,
}

/// Why a container could not go on.
#[derive(Copy, Clone, Debug)]
#[non_exhaustive]
pub enum FramingError {
    /// The operation is not allowed here.
    Invalid(&'static str),
    /// A limit would be exceeded.
    Limit(&'static str),
    /// A size or offset does not fit.
    Overflow,
    /// The resource could not be encoded.
    Encode(EncodeError),
    /// The sink failed.
    Io(SinkError),
}

/// What a failed finish gives back.
#[derive(Debug)]
pub struct FramingFinishError<T> {
    /// The writer.
    pub writer: T,
    /// Why it did not finish.
    pub error: FramingError,
}

/// What a sink took of some bytes; a count past them counts for nothing.
pub open spec fn took(bytes: Seq<u8>, said: Result<usize, SinkError>) -> Seq<u8> {
    match said {
        Ok(count) => if count <= bytes.len() {
            bytes.take(count as int)
        } else {
            Seq::empty()
        },
        Err(_) => Seq::empty(),
    }
}

/// Where a container's bytes go.
///
/// A sink may show what it took, and may be one that takes whatever it is offered;
/// otherwise a kind of sink says nothing but which answers it can give.
pub trait Sink: Sized {
    /// What the sink took can be seen in it.
    open spec fn shows(&self) -> bool {
        arbitrary()
    }

    /// Everything the sink took, if it shows it.
    open spec fn taken(&self) -> Seq<u8> {
        arbitrary()
    }

    /// The sink takes some of whatever it is offered, and can always be flushed.
    open spec fn obliges(&self) -> bool {
        arbitrary()
    }

    /// A sink of this kind can say this when it is offered some bytes.
    open spec fn answers(bytes: Seq<u8>, said: Result<usize, SinkError>) -> bool {
        arbitrary()
    }

    /// A sink of this kind can say this when it is flushed.
    open spec fn flushes(said: Result<(), SinkError>) -> bool {
        arbitrary()
    }

    /// Takes some of the bytes and says how many.
    fn write(&mut self, bytes: &[u8]) -> (result: Result<usize, SinkError>)
        ensures
            Self::answers(bytes@, result),
            old(self).shows() ==> final(self).shows() && final(self).taken() == old(self).taken()
                + took(bytes@, result),
            old(self).obliges() ==> final(self).obliges() && (bytes@.len() > 0 ==> (
            result matches Ok(count) && 0 < count <= bytes@.len())),
    ;

    /// Passes on everything taken.
    fn flush(&mut self) -> (result: Result<(), SinkError>)
        ensures
            Self::flushes(result),
            old(self).shows() ==> final(self).shows() && final(self).taken() == old(self).taken(),
            old(self).obliges() ==> final(self).obliges() && result is Ok,
    ;
}

/// A vector takes everything, and keeps it.
impl Sink for Vec<u8> {
    open spec fn shows(&self) -> bool {
        true
    }

    open spec fn taken(&self) -> Seq<u8> {
        self@
    }

    open spec fn obliges(&self) -> bool {
        true
    }

    open spec fn answers(bytes: Seq<u8>, said: Result<usize, SinkError>) -> bool {
        said matches Ok(count) && count == bytes.len()
    }

    open spec fn flushes(said: Result<(), SinkError>) -> bool {
        said is Ok
    }

    fn write(&mut self, bytes: &[u8]) -> Result<usize, SinkError> {
        self.extend_from_slice(bytes);
        assert(bytes@.take(bytes@.len() as int) =~= bytes@);
        Ok(bytes.len())
    }

    fn flush(&mut self) -> Result<(), SinkError> {
        Ok(())
    }
}

} // verus!
