//! Reading the chunks of a resource back by the rules of the container.
use vstd::prelude::*;

use crate::framing::container;
use crate::framing::container::{Container, Record};
use crate::framing::resource;
use crate::framing::resource::{Chunk, Resource};
use crate::framing::types::{DictionaryReference, MetadataField, ResourceOptions, Sink};
use crate::framing::varint;
use crate::session::StreamEncoder;

verus! {

/// How the content of a chunk is to be taken.
pub enum Coding {
    /// It is the payload as it is.
    Stored,
    /// It goes on where the content of the chunk before it stopped.
    Continued,
    /// A stream of its own starts with it.
    Fresh,
    /// A stream of its own starts with it, and needs the dictionaries that are listed.
    Shared,
}

/// What a chunk of a resource says.
pub struct Part {
    /// Whether a resource starts with it.
    pub first: bool,
    /// Whether a resource ends with it.
    pub last: bool,
    /// How its content is to be taken.
    pub coding: Coding,
    /// How much payload it carries, where it says so.
    pub payload: Option<int>,
    /// The dictionaries it lists, with their number before them.
    pub references: Seq<u8>,
    /// Whether the resource is left out of listings.
    pub hidden: bool,
    /// The hash of the resource.
    pub id: Option<Seq<u8>>,
    /// Its content.
    pub content: Seq<u8>,
    /// How many bytes it takes.
    pub len: int,
}

/// What a reference points with.
pub enum Pointer {
    /// The hash of the dictionary.
    Hash(Seq<u8>),
    /// The offset of the resource that holds it.
    ToResource(int),
    /// The offset of the chunk that holds it.
    ToChunk(int),
}

/// What the reference at the start of some bytes says, and how many bytes it takes: whether
/// the dictionary is serialized, and where it is.
///
/// Of its first byte the third bit says that it is serialized; the two before say that a
/// hash follows, behind its kind, if they are 2, the offset of a resource if they are 0,
/// and that of a chunk if they are 1.
pub open spec fn reference_at(bytes: Seq<u8>) -> Option<(bool, Pointer, int)> {
    if bytes.len() == 0 || bytes[0] >= 8 || bytes[0] % 4 == 3 {
        None
    } else if bytes[0] % 4 == 2 {
        if bytes.len() >= 34 && bytes[1] == 3 {
            Some((bytes[0] >= 4, Pointer::Hash(bytes.subrange(2, 34)), 34))
        } else {
            None
        }
    } else {
        match varint::leading(bytes.skip(1), 9) {
            Some((offset, used)) => Some(
                (
                    bytes[0] >= 4,
                    if bytes[0] % 4 == 0 {
                        Pointer::ToResource(offset)
                    } else {
                        Pointer::ToChunk(offset)
                    },
                    1 + used,
                ),
            ),
            None => None,
        }
    }
}

/// How many bytes the reference at the start of some bytes takes.
pub open spec fn reference_len(bytes: Seq<u8>) -> Option<int> {
    match reference_at(bytes) {
        Some((serialized, pointer, len)) => Some(len),
        None => None,
    }
}

/// What a reference means.
pub open spec fn meaning_of(reference: DictionaryReference) -> (bool, Pointer) {
    match reference {
        DictionaryReference::PrefixId(id) => (false, Pointer::Hash(id.0@)),
        DictionaryReference::SerializedId(id) => (true, Pointer::Hash(id.0@)),
        DictionaryReference::PrefixResource(offset) => (false, Pointer::ToResource(offset as int)),
        DictionaryReference::SerializedResource(offset) => (
            true,
            Pointer::ToResource(offset as int),
        ),
        DictionaryReference::PrefixChunk(offset) => (false, Pointer::ToChunk(offset as int)),
    }
}

/// How many bytes some references at the start of some bytes take.
pub open spec fn references_len(bytes: Seq<u8>, count: int) -> Option<int>
    decreases count,
{
    if count <= 0 {
        Some(0)
    } else {
        match reference_len(bytes) {
            None => None,
            Some(len) => match references_len(bytes.skip(len), count - 1) {
                None => None,
                Some(rest) => Some(len + rest),
            },
        }
    }
}

/// The hash of a resource and the content that follows, behind the flags of a chunk.
#[verifier::opaque]
pub open spec fn ending(flags: u8, bytes: Seq<u8>) -> Option<(Option<Seq<u8>>, Seq<u8>)> {
    if flags >= 4 {
        None
    } else if flags < 2 {
        Some((None, bytes))
    } else if bytes.len() >= 33 && bytes[0] == 3 {
        Some((Some(bytes.subrange(1, 33)), bytes.skip(33)))
    } else {
        None
    }
}

/// The dictionaries a chunk lists, and how many bytes they take.
#[verifier::opaque]
pub open spec fn listed(coding: u8, bytes: Seq<u8>) -> Option<int> {
    if coding != 3 {
        Some(0)
    } else if bytes.len() == 0 {
        None
    } else {
        match references_len(bytes.skip(1), bytes[0] as int) {
            Some(len) => Some(1 + len),
            None => None,
        }
    }
}

/// How much payload a chunk says it carries, and how many bytes that takes.
#[verifier::opaque]
pub open spec fn carried(coding: u8, bytes: Seq<u8>) -> Option<(Option<int>, int)> {
    if coding == 0 {
        Some((None, 0))
    } else {
        match varint::leading(bytes, 9) {
            Some((payload, used)) => Some((Some(payload), used)),
            None => None,
        }
    }
}

/// What the bytes of a chunk behind its length say.
///
/// Two starts and ends a resource, three starts one, four is in the middle, five ends one.
/// Behind that, nought stands for stored content, one for a stream that goes on, two for a
/// new one, three for a new one with dictionaries. Then come how much payload there is,
/// unless it is stored, the dictionaries, the flags and the hash; the rest is content.
pub open spec fn body_says(body: Seq<u8>, len: int) -> Option<Part> {
    if body.len() < 3 || body[0] < 2 || body[0] > 5 || body[1] > 3 {
        None
    } else {
        match carried(body[1], body.skip(2)) {
            None => None,
            Some((payload, used)) => {
                let behind = body.skip(2).skip(used);
                match listed(body[1], behind) {
                    None => None,
                    Some(taken) => {
                        let end = behind.skip(taken);
                        if end.len() == 0 {
                            None
                        } else {
                            match ending(end[0], end.skip(1)) {
                                None => None,
                                Some((id, content)) => Some(
                                    Part {
                                        first: body[0] == 2 || body[0] == 3,
                                        last: body[0] == 2 || body[0] == 5,
                                        coding: if body[1] == 0 {
                                            Coding::Stored
                                        } else if body[1] == 1 {
                                            Coding::Continued
                                        } else if body[1] == 2 {
                                            Coding::Fresh
                                        } else {
                                            Coding::Shared
                                        },
                                        payload,
                                        references: behind.take(taken),
                                        hidden: end[0] % 2 == 1,
                                        id,
                                        content,
                                        len,
                                    },
                                ),
                            }
                        }
                    },
                }
            },
        }
    }
}

/// What the chunk of a resource at the start of some bytes says.
pub open spec fn part_at(bytes: Seq<u8>) -> Option<Part> {
    match varint::leading(bytes, 9) {
        None => None,
        Some((len, used)) => if used + len > bytes.len() {
            None
        } else {
            body_says(bytes.subrange(used, used + len), used + len)
        },
    }
}

/// What a reader is to learn from a chunk of a resource: where the resource starts and
/// ends; that content is stored unless the resource is compressed; that a compressed
/// resource is one stream, which its first chunk starts and all others go on with; and the
/// payload, dictionaries, hash and content.
pub open spec fn tells(
    part: Part,
    options: ResourceOptions,
    compressed: bool,
    references: Seq<u8>,
    first: bool,
    last: bool,
    payload: int,
    content: Seq<u8>,
) -> bool {
    &&& part.first == first
    &&& part.last == last
    &&& part.coding is Stored <==> !compressed
    &&& part.coding is Continued <==> compressed && !first
    &&& part.coding is Fresh <==> compressed && first && references.len() == 0
    &&& part.coding is Shared <==> compressed && first && references.len() > 0
    &&& part.payload == if compressed {
        Some(payload)
    } else {
        None
    }
    &&& part.references == if compressed && first {
        references
    } else {
        Seq::empty()
    }
    &&& part.hidden == (first && options.hidden)
    &&& part.id == if last && options.id is Some {
        Some((options.id->0).0@)
    } else {
        None
    }
    &&& part.content == content
}

/// A list of references as a header holds it: nothing, or their number and themselves.
pub open spec fn is_list(references: Seq<u8>) -> bool {
    references.len() > 0 ==> exists|given: Seq<DictionaryReference>| #[trigger]
        is_list_of(references, given)
}

/// A list of some references as a header holds it.
pub open spec fn is_list_of(references: Seq<u8>, given: Seq<DictionaryReference>) -> bool {
    &&& given.len() <= 16
    &&& references == seq![given.len() as u8] + container::listed_references(given)
    &&& forall|i: int| 0 <= i < given.len() ==> #[trigger] points_within(given[i])
}

/// The offset of a reference is one that can be written.
pub open spec fn points_within(reference: DictionaryReference) -> bool {
    match reference {
        DictionaryReference::PrefixId(_) => true,
        DictionaryReference::SerializedId(_) => true,
        DictionaryReference::PrefixResource(offset) => offset <= varint::MAX_VARINT,
        DictionaryReference::SerializedResource(offset) => offset <= varint::MAX_VARINT,
        DictionaryReference::PrefixChunk(offset) => offset <= varint::MAX_VARINT,
    }
}

/// A reference reads back, whatever follows it: which kind of dictionary it is to, and
/// where that is.
pub proof fn lemma_reference_reads_back(reference: DictionaryReference, rest: Seq<u8>)
    requires
        points_within(reference),
    ensures
        reference_at(container::reference_bytes(reference) + rest) == Some(
            (
                meaning_of(reference).0,
                meaning_of(reference).1,
                container::reference_bytes(reference).len() as int,
            ),
        ),
{
    let bytes = container::reference_bytes(reference) + rest;
    match reference {
        DictionaryReference::PrefixResource(offset) => {
            varint::lemma_reads_back(offset as int, rest);
            assert(bytes.skip(1) =~= varint::encoded(offset as int) + rest);
        },
        DictionaryReference::SerializedResource(offset) => {
            varint::lemma_reads_back(offset as int, rest);
            assert(bytes.skip(1) =~= varint::encoded(offset as int) + rest);
        },
        DictionaryReference::PrefixChunk(offset) => {
            varint::lemma_reads_back(offset as int, rest);
            assert(bytes.skip(1) =~= varint::encoded(offset as int) + rest);
        },
        DictionaryReference::PrefixId(id) => {
            assert(bytes.subrange(2, 34) =~= id.0@);
        },
        DictionaryReference::SerializedId(id) => {
            assert(bytes.subrange(2, 34) =~= id.0@);
        },
    }
}

/// References, the first apart.
proof fn lemma_listed_first(given: Seq<DictionaryReference>)
    requires
        given.len() > 0,
    ensures
        container::listed_references(given) == container::reference_bytes(given[0])
            + container::listed_references(given.skip(1)),
    decreases given.len(),
{
    if given.len() == 1 {
        assert(container::listed_references(given.drop_last()) =~= Seq::empty());
        assert(container::listed_references(given.skip(1)) =~= Seq::empty());
    } else {
        lemma_listed_first(given.drop_last());
        assert(given.drop_last().skip(1) =~= given.skip(1).drop_last());
        assert(given.skip(1).last() == given.last());
    }
}

/// References read back, whatever follows them.
proof fn lemma_references_read_back(given: Seq<DictionaryReference>, rest: Seq<u8>)
    requires
        forall|i: int| 0 <= i < given.len() ==> #[trigger] points_within(given[i]),
    ensures
        references_len(container::listed_references(given) + rest, given.len() as int) == Some(
            container::listed_references(given).len() as int,
        ),
    decreases given.len(),
{
    if given.len() > 0 {
        let bytes = container::listed_references(given) + rest;
        let tail = container::listed_references(given.skip(1)) + rest;
        let head = container::reference_bytes(given[0]);
        lemma_listed_first(given);
        assert(bytes =~= head + tail);
        assert(points_within(given[0]));
        lemma_reference_reads_back(given[0], tail);
        assert(bytes.skip(head.len() as int) =~= tail);
        assert forall|i: int| 0 <= i < given.skip(1).len() implies #[trigger] points_within(
            given.skip(1)[i],
        ) by {
            assert(points_within(given[i + 1]));
        }
        lemma_references_read_back(given.skip(1), rest);
    }
}

/// The bytes of a chunk, put together from what it says.
pub open spec fn laid_out(
    kind: u8,
    codec: u8,
    payload: int,
    listing: Seq<u8>,
    flags: u8,
    id: Option<Seq<u8>>,
    content: Seq<u8>,
) -> Seq<u8> {
    seq![kind, codec] + ((if codec != 0 {
        varint::encoded(payload)
    } else {
        Seq::empty()
    }) + (listing + (seq![flags] + ((match id {
        Some(hash) => seq![3u8] + hash,
        None => Seq::empty(),
    }) + content))))
}

/// A list of dictionaries reads back, whatever follows it.
proof fn lemma_listing_reads_back(codec: u8, listing: Seq<u8>, end: Seq<u8>)
    requires
        codec != 3 ==> listing.len() == 0,
        codec == 3 ==> listing.len() > 0 && is_list(listing),
    ensures
        listed(codec, listing + end) == Some(listing.len() as int),
{
    reveal(listed);
    if codec == 3 {
        let behind = listing + end;
        let given = choose|given: Seq<DictionaryReference>| #[trigger] is_list_of(listing, given);
        lemma_references_read_back(given, end);
        assert(behind.skip(1) =~= container::listed_references(given) + end);
        assert(behind[0] == given.len());
    }
}

/// A hash and what follows it read back.
proof fn lemma_ending_reads_back(flags: u8, id: Option<Seq<u8>>, content: Seq<u8>)
    requires
        flags < 4,
        id is Some <==> flags >= 2,
        id matches Some(hash) ==> hash.len() == 32,
    ensures
        ending(
            flags,
            (match id {
                Some(hash) => seq![3u8] + hash,
                None => Seq::empty(),
            }) + content,
        ) == Some((id, content)),
{
    reveal(ending);
    if id is Some {
        let bytes = seq![3u8] + id->0 + content;
        assert(bytes.subrange(1, 33) =~= id->0);
        assert(bytes.skip(33) =~= content);
    } else {
        assert(Seq::<u8>::empty() + content =~= content);
    }
}

/// The amount of payload reads back, whatever follows it.
proof fn lemma_amount_reads_back(codec: u8, payload: int, behind: Seq<u8>)
    requires
        0 <= payload <= varint::MAX_VARINT,
    ensures
        ({
            let amount = if codec != 0 {
                varint::encoded(payload)
            } else {
                Seq::empty()
            };
            carried(codec, amount + behind) == Some(
                (
                    if codec == 0 {
                        None
                    } else {
                        Some(payload)
                    },
                    amount.len() as int,
                ),
            )
        }),
{
    reveal(carried);
    if codec != 0 {
        varint::lemma_reads_back(payload, behind);
    }
}

/// What is put together reads back.
proof fn lemma_body_reads_back(
    kind: u8,
    codec: u8,
    payload: int,
    listing: Seq<u8>,
    flags: u8,
    id: Option<Seq<u8>>,
    content: Seq<u8>,
    len: int,
)
    requires
        2 <= kind <= 5,
        codec <= 3,
        0 <= payload <= varint::MAX_VARINT,
        codec != 3 ==> listing.len() == 0,
        codec == 3 ==> listing.len() > 0 && is_list(listing),
        flags < 4,
        id is Some <==> flags >= 2,
        id matches Some(hash) ==> hash.len() == 32,
    ensures
        body_says(laid_out(kind, codec, payload, listing, flags, id, content), len) == Some(
            Part {
                first: kind == 2 || kind == 3,
                last: kind == 2 || kind == 5,
                coding: if codec == 0 {
                    Coding::Stored
                } else if codec == 1 {
                    Coding::Continued
                } else if codec == 2 {
                    Coding::Fresh
                } else {
                    Coding::Shared
                },
                payload: if codec == 0 {
                    None
                } else {
                    Some(payload)
                },
                references: listing,
                hidden: flags % 2 == 1,
                id,
                content,
                len,
            },
        ),
{
    let body = laid_out(kind, codec, payload, listing, flags, id, content);
    let tag = match id {
        Some(hash) => seq![3u8] + hash,
        None => Seq::empty(),
    };
    let end = seq![flags] + (tag + content);
    let behind = listing + end;
    let amount = if codec != 0 {
        varint::encoded(payload)
    } else {
        Seq::empty()
    };
    assert(body =~= seq![kind, codec] + (amount + behind));
    assert(body.skip(2) =~= amount + behind);
    assert(body[0] == kind && body[1] == codec);
    lemma_amount_reads_back(codec, payload, behind);
    assert((amount + behind).skip(amount.len() as int) =~= behind);
    lemma_listing_reads_back(codec, listing, end);
    assert(behind.skip(listing.len() as int) =~= end);
    assert(behind.take(listing.len() as int) =~= listing);
    assert(end.skip(1) =~= tag + content);
    assert(end[0] == flags);
    lemma_ending_reads_back(flags, id, content);
}

/// A header and its content are laid out as a reader takes them.
proof fn lemma_header_laid_out(
    options: ResourceOptions,
    compressed: bool,
    references: Seq<u8>,
    first: bool,
    last: bool,
    payload: int,
    content: Seq<u8>,
)
    ensures
        ({
            let header = resource::header_of(
                options,
                compressed,
                references,
                first,
                last,
                payload,
            );
            let named = last && options.id is Some;
            &&& header + content == laid_out(
                header[0],
                header[1],
                payload,
                if compressed && first {
                    references
                } else {
                    Seq::empty()
                },
                resource::flags_of(options, first, last),
                if named {
                    Some((options.id->0).0@)
                } else {
                    None
                },
                content,
            )
            &&& header[0] == resource::kind_of(first, last)
            &&& header[1] == resource::codec_of(compressed, first, references)
        }),
{
    let header = resource::header_of(options, compressed, references, first, last, payload);
    let codec = resource::codec_of(compressed, first, references);
    let opening = seq![resource::kind_of(first, last), codec];
    let amount = if codec != 0 {
        varint::encoded(payload)
    } else {
        Seq::empty()
    };
    let listing = if codec == 3 {
        references
    } else {
        Seq::empty()
    };
    let flags = seq![resource::flags_of(options, first, last)];
    let tag = if last && options.id is Some {
        seq![3u8] + (options.id->0).0@
    } else {
        Seq::empty()
    };
    assert(header == opening + amount + listing + flags + tag);
    assert(listing =~= if compressed && first {
        references
    } else {
        Seq::empty()
    });
    assert(header + content =~= opening + (amount + (listing + (flags + (tag + content)))));
    assert(header[0] == opening[0] && header[1] == opening[1]);
}

/// A chunk of a resource reads back, whatever follows it: from its bytes a reader learns
/// what it is, that its content is stored, goes on, or starts anew with or without
/// dictionaries, and everything it carries.
pub proof fn lemma_chunk_reads_back(
    options: ResourceOptions,
    compressed: bool,
    references: Seq<u8>,
    first: bool,
    last: bool,
    payload: int,
    content: Seq<u8>,
    rest: Seq<u8>,
)
    requires
        0 <= payload <= varint::MAX_VARINT,
        is_list(references),
        resource::header_of(options, compressed, references, first, last, payload).len()
            + content.len() <= varint::MAX_VARINT,
    ensures
        ({
            let chunk = container::chunk_of(
                resource::header_of(options, compressed, references, first, last, payload),
                content,
            );
            &&& part_at(chunk + rest) matches Some(part)
            &&& part.len == chunk.len()
            &&& tells(part, options, compressed, references, first, last, payload, content)
        }),
{
    let header = resource::header_of(options, compressed, references, first, last, payload);
    let body = header + content;
    let bytes = container::chunk_of(header, content) + rest;
    let size = body.len() as int;
    varint::lemma_reads_back(size, body + rest);
    let used = varint::encoded(size).len() as int;
    assert(bytes =~= varint::encoded(size) + (body + rest));
    assert(bytes.subrange(used, used + size) =~= body);
    let listing = if compressed && first {
        references
    } else {
        Seq::empty()
    };
    let id = if last && options.id is Some {
        Some((options.id->0).0@)
    } else {
        None
    };
    let flags = resource::flags_of(options, first, last);
    lemma_header_laid_out(options, compressed, references, first, last, payload, content);
    lemma_body_reads_back(
        header[0],
        header[1],
        payload,
        listing,
        flags,
        id,
        content,
        used + size,
    );
}

/// Where the chunk of a resource starts on its wire.
pub open spec fn starts_at(
    options: ResourceOptions,
    compressed: bool,
    references: Seq<u8>,
    chunks: Seq<Chunk>,
    i: int,
) -> int {
    resource::on_wire(options, compressed, references, chunks.take(i)).len() as int
}

/// The wire of a resource begins with its first chunks.
proof fn lemma_wire_begins(
    options: ResourceOptions,
    compressed: bool,
    references: Seq<u8>,
    chunks: Seq<Chunk>,
    n: int,
) -> (rest: Seq<u8>)
    requires
        0 <= n <= chunks.len(),
    ensures
        resource::on_wire(options, compressed, references, chunks) == resource::on_wire(
            options,
            compressed,
            references,
            chunks.take(n),
        ) + rest,
    decreases chunks.len() - n,
{
    let whole = resource::on_wire(options, compressed, references, chunks);
    if n == chunks.len() {
        assert(chunks.take(n) =~= chunks);
        assert(whole + Seq::<u8>::empty() =~= whole);
        Seq::empty()
    } else {
        let tail = lemma_wire_begins(options, compressed, references, chunks, n + 1);
        let less = resource::on_wire(options, compressed, references, chunks.take(n));
        let more = resource::on_wire(options, compressed, references, chunks.take(n + 1));
        assert(chunks.take(n + 1).drop_last() =~= chunks.take(n));
        let rest = more.skip(less.len() as int) + tail;
        assert(more =~= less + more.skip(less.len() as int));
        assert(whole =~= less + rest);
        rest
    }
}

/// A resource reads back from its wire: its chunks stand one behind the other, the first
/// starts it, the last one ends it, and each carries its own part. The chunks of a
/// compressed resource are one stream: the first starts it, and every other goes on with
/// it; those of a stored one hold the payload.
pub proof fn lemma_resource_reads_back(
    options: ResourceOptions,
    compressed: bool,
    references: Seq<u8>,
    chunks: Seq<Chunk>,
    i: int,
)
    requires
        is_list(references),
        0 <= i < chunks.len(),
        chunks[i].payload.len() <= varint::MAX_VARINT,
        resource::on_wire(options, compressed, references, chunks).len() <= varint::MAX_VARINT,
    ensures
        ({
            let wire = resource::on_wire(options, compressed, references, chunks);
            let at = starts_at(options, compressed, references, chunks, i);
            &&& part_at(wire.skip(at)) matches Some(part)
            &&& at + part.len == starts_at(options, compressed, references, chunks, i + 1)
            &&& tells(
                part,
                options,
                compressed,
                references,
                i == 0,
                chunks[i].last,
                chunks[i].payload.len() as int,
                chunks[i].content,
            )
        }),
        starts_at(options, compressed, references, chunks, 0) == 0,
        starts_at(options, compressed, references, chunks, chunks.len() as int)
            == resource::on_wire(options, compressed, references, chunks).len(),
{
    let wire = resource::on_wire(options, compressed, references, chunks);
    let less = resource::on_wire(options, compressed, references, chunks.take(i));
    let chunk = chunks[i];
    let header = resource::header_of(
        options,
        compressed,
        references,
        i == 0,
        chunk.last,
        chunk.payload.len() as int,
    );
    let rest = lemma_wire_begins(options, compressed, references, chunks, i + 1);
    assert(chunks.take(i + 1).drop_last() =~= chunks.take(i));
    assert(chunks.take(i + 1).last() == chunk);
    let bytes = container::chunk_of(header, chunk.content);
    assert(wire =~= less + bytes + rest);
    assert(wire.skip(less.len() as int) =~= bytes + rest);
    lemma_chunk_reads_back(
        options,
        compressed,
        references,
        i == 0,
        chunk.last,
        chunk.payload.len() as int,
        chunk.content,
        rest,
    );
    assert(chunks.take(0) =~= Seq::empty());
    assert(chunks.take(chunks.len() as int) =~= chunks);
}

/// The wire of the container a resource is written into.
pub open spec fn wire_of<'a, W: Sink, E: StreamEncoder>(written: &Resource<'a, W, E>) -> Seq<u8> {
    written.core.wire()
}

/// Whatever a resource has written so far reads back from the wire of its container, a
/// chunk at a time.
pub proof fn lemma_container_reads_back<'a, W: Sink, E: StreamEncoder>(
    written: &Resource<'a, W, E>,
    i: int,
)
    requires
        written.wf(),
        is_list(written.references@),
        0 <= i < written.chunks@.len(),
        written.chunks@[i].payload.len() <= varint::MAX_VARINT,
    ensures
        ({
            let compressed = written.session is Some;
            let chunk = written.chunks@[i];
            let at = written.before@.len() + starts_at(
                written.options,
                compressed,
                written.references@,
                written.chunks@,
                i,
            );
            &&& part_at(wire_of(written).skip(at)) matches Some(part)
            &&& tells(
                part,
                written.options,
                compressed,
                written.references@,
                i == 0,
                chunk.last,
                chunk.payload.len() as int,
                chunk.content,
            )
            &&& part.last ==> written.finished && i == written.chunks@.len() - 1
        }),
{
    let compressed = written.session is Some;
    let wire = resource::on_wire(
        written.options,
        compressed,
        written.references@,
        written.chunks@,
    );
    let at = starts_at(written.options, compressed, written.references@, written.chunks@, i);
    lemma_resource_reads_back(
        written.options,
        compressed,
        written.references@,
        written.chunks@,
        i,
    );
    let rest = lemma_wire_begins(
        written.options,
        compressed,
        written.references@,
        written.chunks@,
        i,
    );
    assert(wire_of(written).skip(written.before@.len() + at) =~= wire.skip(at));
}

/// The chunk at the start of some bytes: its kind, what follows that, and how many bytes it
/// takes.
pub open spec fn chunk_at(bytes: Seq<u8>) -> Option<(u8, Seq<u8>, int)> {
    match varint::leading(bytes, 9) {
        None => None,
        Some((len, used)) => if len == 0 || used + len > bytes.len() {
            None
        } else {
            Some((bytes[used], bytes.subrange(used + 1, used + len), used + len))
        },
    }
}

/// A chunk reads back, whatever follows it.
pub proof fn lemma_any_chunk_reads_back(header: Seq<u8>, content: Seq<u8>, rest: Seq<u8>)
    requires
        header.len() > 0,
        header.len() + content.len() <= varint::MAX_VARINT,
    ensures
        chunk_at(container::chunk_of(header, content) + rest) == Some(
            (
                header[0],
                header.skip(1) + content,
                container::chunk_of(header, content).len() as int,
            ),
        ),
{
    let size = (header.len() + content.len()) as int;
    let bytes = container::chunk_of(header, content) + rest;
    let used = varint::encoded(size).len() as int;
    varint::lemma_reads_back(size, header + content + rest);
    assert(bytes =~= varint::encoded(size) + (header + content + rest));
    assert(bytes.subrange(used + 1, used + size) =~= header.skip(1) + content);
    assert(bytes[used] == header[0]);
}

/// The field at the start of some bytes: its two letters, its value, and how many bytes it
/// takes.
pub open spec fn field_at(bytes: Seq<u8>) -> Option<(Seq<u8>, Seq<u8>, int)> {
    if bytes.len() < 2 {
        None
    } else {
        match varint::leading(bytes.skip(2), 9) {
            None => None,
            Some((len, used)) => if 2 + used + len > bytes.len() {
                None
            } else {
                Some((bytes.take(2), bytes.subrange(2 + used, 2 + used + len), 2 + used + len))
            },
        }
    }
}

/// The fields of metadata read back, one behind the other, each with its name and value.
pub proof fn lemma_fields_read_back(fields: Seq<MetadataField>, i: int)
    requires
        0 <= i < fields.len(),
        fields[i].value@.len() <= varint::MAX_VARINT,
    ensures
        ({
            let at = container::fields_content(fields.take(i)).len() as int;
            &&& field_at(container::fields_content(fields).skip(at)) matches Some((code, value, len))
            &&& code == fields[i].code@
            &&& value == fields[i].value@
            &&& at + len == container::fields_content(fields.take(i + 1)).len()
        }),
        container::fields_content(fields.take(0)).len() == 0,
{
    let rest = lemma_fields_begin(fields, i + 1);
    let before = container::fields_content(fields.take(i));
    let field = fields[i];
    let size = varint::encoded(field.value@.len() as int);
    assert(fields.take(i + 1).drop_last() =~= fields.take(i));
    let bytes = container::fields_content(fields).skip(before.len() as int);
    assert(bytes =~= field.code@ + (size + (field.value@ + rest)));
    varint::lemma_reads_back(field.value@.len() as int, field.value@ + rest);
    assert(bytes.skip(2) =~= size + (field.value@ + rest));
    assert(bytes.take(2) =~= field.code@);
    let from = 2 + size.len() as int;
    assert(bytes.subrange(from, from + field.value@.len()) =~= field.value@);
}

/// Fields begin with the first of them.
proof fn lemma_fields_begin(fields: Seq<MetadataField>, n: int) -> (rest: Seq<u8>)
    requires
        0 <= n <= fields.len(),
    ensures
        container::fields_content(fields) == container::fields_content(fields.take(n)) + rest,
    decreases fields.len() - n,
{
    let whole = container::fields_content(fields);
    if n == fields.len() {
        assert(fields.take(n) =~= fields);
        assert(whole + Seq::<u8>::empty() =~= whole);
        Seq::empty()
    } else {
        let tail = lemma_fields_begin(fields, n + 1);
        let less = container::fields_content(fields.take(n));
        let more = container::fields_content(fields.take(n + 1));
        assert(fields.take(n + 1).drop_last() =~= fields.take(n));
        let rest = more.skip(less.len() as int) + tail;
        assert(more =~= less + more.skip(less.len() as int));
        assert(whole =~= less + rest);
        rest
    }
}

/// The entry at the start of some bytes of a directory: the offset of a chunk, its header,
/// and how many bytes the entry takes.
pub open spec fn entry_at(bytes: Seq<u8>) -> Option<(int, Seq<u8>, int)> {
    match varint::leading(bytes, 9) {
        None => None,
        Some((offset, first)) => match varint::leading(bytes.skip(first), 9) {
            None => None,
            Some((len, second)) => if first + second + len > bytes.len() {
                None
            } else {
                Some(
                    (
                        offset,
                        bytes.subrange(first + second, first + second + len),
                        first + second + len,
                    ),
                )
            },
        },
    }
}

/// The entries of a directory read back, one behind the other, each with the offset and
/// the header of its chunk.
pub proof fn lemma_entries_read_back(records: Seq<Record>, i: int)
    requires
        0 <= i < records.len(),
        records[i].offset <= varint::MAX_VARINT,
        records[i].header@.len() <= varint::MAX_VARINT,
    ensures
        ({
            let at = container::entries(records.take(i)).len() as int;
            &&& entry_at(container::entries(records).skip(at)) matches Some((offset, header, len))
            &&& offset == records[i].offset
            &&& header == records[i].header@
            &&& at + len == container::entries(records.take(i + 1)).len()
        }),
        container::entries(records.take(0)).len() == 0,
{
    let rest = lemma_entries_begin(records, i + 1);
    let before = container::entries(records.take(i));
    let record = records[i];
    let place = varint::encoded(record.offset as int);
    let size = varint::encoded(record.header@.len() as int);
    assert(records.take(i + 1).drop_last() =~= records.take(i));
    let bytes = container::entries(records).skip(before.len() as int);
    assert(bytes =~= place + (size + (record.header@ + rest)));
    varint::lemma_reads_back(record.offset as int, size + (record.header@ + rest));
    varint::lemma_reads_back(record.header@.len() as int, record.header@ + rest);
    assert(bytes.skip(place.len() as int) =~= size + (record.header@ + rest));
    let from = (place.len() + size.len()) as int;
    assert(bytes.subrange(from, from + record.header@.len()) =~= record.header@);
}

/// Entries begin with the first of them.
proof fn lemma_entries_begin(records: Seq<Record>, n: int) -> (rest: Seq<u8>)
    requires
        0 <= n <= records.len(),
    ensures
        container::entries(records) == container::entries(records.take(n)) + rest,
    decreases records.len() - n,
{
    let whole = container::entries(records);
    if n == records.len() {
        assert(records.take(n) =~= records);
        assert(whole + Seq::<u8>::empty() =~= whole);
        Seq::empty()
    } else {
        let tail = lemma_entries_begin(records, n + 1);
        let less = container::entries(records.take(n));
        let more = container::entries(records.take(n + 1));
        assert(records.take(n + 1).drop_last() =~= records.take(n));
        let rest = more.skip(less.len() as int) + tail;
        assert(more =~= less + more.skip(less.len() as int));
        assert(whole =~= less + rest);
        rest
    }
}

/// An ended container leads to its directory: at the offset that its footer is to state
/// stands a chunk of kind 9, which holds the offset of the repeated metadata and then the
/// entries; and behind that a chunk of kind 10, the footer, ends the stream.
pub proof fn lemma_directory_is_there<W>(core: &Container<W>)
    requires
        core.config.container,
        !core.finished,
        core.owes_directory(),
        0 <= core.repeat_mark() <= varint::MAX_VARINT,
        core.whole().len() <= varint::MAX_VARINT,
    ensures
        ({
            let at = core.directory_mark();
            &&& chunk_at(core.whole().skip(at)) matches Some((kind, content, len))
            &&& kind == 9
            &&& varint::leading(content, 9) matches Some((mark, used))
            &&& mark == core.repeat_mark()
            &&& content.skip(used) == container::entries(core.records@)
            &&& chunk_at(core.whole().skip(at + len)) matches Some((end, footer, left))
            &&& end == 10
            &&& at + len + left == core.whole().len()
        }),
{
    let repeated = core.repeated();
    let mark = varint::encoded(core.repeat_mark());
    let content = mark + container::entries(core.records@);
    let directory = container::chunk_of(seq![9u8], content);
    let stated = container::footer_content(
        container::stated_size(core.listed().len() as int, core.directory_mark()),
        core.directory_mark(),
    );
    let footer = container::chunk_of(seq![10u8], stated);
    assert(core.whole() =~= repeated + (directory + footer));
    let at = core.directory_mark();
    assert(core.whole().skip(at) =~= directory + footer);
    lemma_any_chunk_reads_back(seq![9u8], content, footer);
    assert(seq![9u8].skip(1) + content =~= content);
    varint::lemma_reads_back(core.repeat_mark(), container::entries(core.records@));
    assert(content.skip(mark.len() as int) =~= container::entries(core.records@));
    let next = at + directory.len();
    assert(core.whole().skip(next) =~= footer + Seq::empty());
    lemma_any_chunk_reads_back(seq![10u8], stated, Seq::empty());
}

} // verus!
