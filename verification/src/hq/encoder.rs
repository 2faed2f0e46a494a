//! The streaming encoder of the two highest qualities.
//!
//! Input blocks collect commands until a meta-block is due. When to merge, when
//! to flush, when to give up compressing and what is carried from one meta-block
//! to the next is decided here; what a meta-block's bits are is the engine's.
use vstd::arithmetic::{div_mod, power2};
use vstd::prelude::*;

use crate::backend::Backend;
use crate::config::{BrotliCompressError, BrotliResult, CompressParams};
use crate::fast::header;
use crate::fast::header::store_meta_block_header;
use crate::greedy::backward_references;
use crate::greedy::backward_references::Command;
use crate::greedy::search;
use crate::hq::candidates;
use crate::hq::candidates::{PrefixMatcher, TreeMatcher};
use crate::hq::nodes::CostModel;
use crate::hq::params::{HqParams, HqQuality};
use crate::hq::path;
use crate::hq::path::{Stretch, ZopfliState};
use crate::hq::retold;
use crate::hq::retold::Bounds;
use crate::hq::zopfli;
use crate::hq::zopfli::{
    create_hq_zopfli_backward_references, create_zopfli_backward_references, Answer,
};
use crate::math;
use crate::session::MAX_STREAM_POSITION;
use crate::shared::bits::BitWriter;
use crate::shared::histogram::{Histogram, NUM_LITERAL_SYMBOLS};
use crate::shared::reader;
use crate::shared::ringbuffer;
use crate::shared::ringbuffer::{wrap_position, RingBuffer};

verus! {

/// Stride the compressibility check samples literals at.
pub const SAMPLE_RATE: usize = 13;

/// What a meta-block is made of.
pub struct MetaBlock<'a> {
    /// The ring buffer.
    pub data: &'a [u8],
    /// Mask that turns a position into a buffer index.
    pub mask: usize,
    /// Where the meta-block starts.
    pub position: usize,
    /// How many bytes it covers.
    pub bytes: usize,
    /// The byte before it.
    pub prev_byte: u8,
    /// The byte before that.
    pub prev_byte2: u8,
    /// Whether it is the last.
    pub is_last: bool,
    /// How literal contexts are formed.
    pub context_mode: u8,
    /// Its commands.
    pub commands: &'a [Command],
}

/// What passes between the encoder and its engine.
pub enum Exchange {
    /// The match finder is set up for a fresh position space.
    Prepared,
    /// The match finder is handed the positions around a block boundary.
    Stitched {
        /// The ring buffer and its mask.
        window: (Seq<u8>, usize),
        /// Where the new input starts and how long it is.
        fresh: (int, int),
    },
    /// How literal contexts are formed is asked.
    Formed {
        /// The ring buffer and its mask.
        window: (Seq<u8>, usize),
        /// Where the pending bytes start and how many there are.
        pending: (int, int),
        /// The answer.
        mode: u8,
    },
    /// Whether nearly all of the bytes are literals is asked.
    Weighed {
        /// The literals.
        num_literals: int,
        /// The bytes.
        bytes: int,
        /// The answer.
        mostly: bool,
    },
    /// Whether sampled literals look like noise is asked.
    Sampled {
        /// The sample.
        sample: Seq<u32>,
        /// The bytes.
        bytes: int,
        /// The answer.
        noisy: bool,
    },
    /// A meta-block is written.
    Stored(Storing),
}

/// An engine is another one after some exchanges, in order.
pub open spec fn exchanged<B: BlockEngine>(before: B, things: Seq<Exchange>, after: B) -> bool
    decreases things.len(),
{
    if things.len() == 0 {
        before == after
    } else {
        exists|between: B|
            #![trigger B::does(between, things.last(), after)]
            exchanged(before, things.drop_last(), between) && B::does(
                between,
                things.last(),
                after,
            )
    }
}

/// One more exchange.
proof fn lemma_exchanged<B: BlockEngine>(
    before: B,
    things: Seq<Exchange>,
    between: B,
    thing: Exchange,
    after: B,
)
    requires
        exchanged(before, things, between),
        B::does(between, thing, after),
    ensures
        exchanged(before, things.push(thing), after),
{
    assert(things.push(thing).drop_last() =~= things);
    assert(B::does(between, things.push(thing).last(), after));
}

/// What the encoder asks of its surroundings.
///
/// The answers are used as they come, after they were held against the buffer; a kind
/// of engine says nothing but how it can take an exchange.
pub trait BlockEngine: Sized {
    /// An engine of this kind can answer so, and become another one.
    open spec fn does(before: Self, exchange: Exchange, after: Self) -> bool {
        arbitrary()
    }

    /// Sets the match finder up for a fresh position space.
    fn prepare(&mut self)
        ensures
            Self::does(*old(self), Exchange::Prepared, *final(self)),
    ;

    /// Hands the match finder the positions around a block boundary.
    fn stitch(&mut self, data: &[u8], mask: usize, input_size: usize, position: usize)
        ensures
            Self::does(
                *old(self),
                Exchange::Stitched {
                    window: (data@, mask),
                    fresh: (position as int, input_size as int),
                },
                *final(self),
            ),
    ;

    /// Chooses how literal contexts are formed over the pending bytes.
    fn context_mode(&mut self, data: &[u8], mask: usize, position: usize, length: usize) -> (mode: u8)
        ensures
            Self::does(
                *old(self),
                Exchange::Formed {
                    window: (data@, mask),
                    pending: (position as int, length as int),
                    mode,
                },
                *final(self),
            ),
    ;

    /// Whether nearly all of the bytes are literals.
    fn mostly_literals(&mut self, num_literals: usize, bytes: usize) -> (mostly: bool)
        ensures
            Self::does(
                *old(self),
                Exchange::Weighed {
                    num_literals: num_literals as int,
                    bytes: bytes as int,
                    mostly,
                },
                *final(self),
            ),
    ;

    /// Whether sampled literals look like noise.
    fn noisy(&mut self, sample: &Histogram, bytes: usize) -> (noisy: bool)
        ensures
            Self::does(
                *old(self),
                Exchange::Sampled { sample: sample@, bytes: bytes as int, noisy },
                *final(self),
            ),
    ;

    /// Writes a compressed meta-block behind the `bits` low bits of `carried`, and
    /// returns the bytes and the bit after the last.
    fn store_meta_block(&mut self, block: MetaBlock, carried: u16, bits: u32) -> (out: (
        Vec<u8>,
        usize,
    ))
        ensures
            Self::does(
                *old(self),
                Exchange::Stored(block.storing(carried, bits, out.0@, out.1 as int)),
                *final(self),
            ),
    ;
}

impl<'a> MetaBlock<'a> {
    /// The meta-block as it is handed over, and what came back.
    pub open spec fn storing(&self, carried: u16, bits: u32, made: Seq<u8>, end: int) -> Storing {
        Storing {
            window: (self.data@, self.mask),
            span: (self.position as int, self.bytes as int),
            before: (self.prev_byte, self.prev_byte2),
            is_last: self.is_last,
            context_mode: self.context_mode,
            commands: self.commands@,
            carried: (carried, bits),
            made,
            end,
        }
    }
}

/// An engine that lets everything be stored as it is: to it, all is noise.
pub struct StoreOnly;

impl BlockEngine for StoreOnly {
    open spec fn does(before: Self, exchange: Exchange, after: Self) -> bool {
        &&& before == after
        &&& match exchange {
            Exchange::Formed { mode, .. } => mode == 0,
            Exchange::Weighed { mostly, .. } => mostly,
            Exchange::Sampled { noisy, .. } => noisy,
            Exchange::Stored(storing) => storing.made.len() == 0 && storing.end == 0,
            _ => true,
        }
    }

    fn prepare(&mut self) {
    }

    fn stitch(&mut self, data: &[u8], mask: usize, input_size: usize, position: usize) {
    }

    fn context_mode(&mut self, data: &[u8], mask: usize, position: usize, length: usize) -> u8 {
        0
    }

    fn mostly_literals(&mut self, num_literals: usize, bytes: usize) -> bool {
        true
    }

    fn noisy(&mut self, sample: &Histogram, bytes: usize) -> bool {
        true
    }

    fn store_meta_block(&mut self, block: MetaBlock, carried: u16, bits: u32) -> (Vec<u8>, usize) {
        let storage: Vec<u8> = Vec::new();
        assert(storage@ =~= Seq::empty());
        (storage, 0)
    }
}

/// What the engine was told of new input, and how it wants literal contexts formed.
pub struct Guidance {
    /// Whether the match finder was set up anew.
    pub prepared: bool,
    /// The ring buffer and its mask.
    pub window: (Seq<u8>, usize),
    /// Where the new input starts and how long it is.
    pub fresh: (int, int),
    /// Where the pending bytes start and how many there are.
    pub pending: (int, int),
    /// How literal contexts are formed.
    pub context_mode: u8,
}

impl Guidance {
    /// The exchanges it took.
    pub open spec fn things(&self) -> Seq<Exchange> {
        (if self.prepared {
            seq![Exchange::Prepared]
        } else {
            Seq::empty()
        }).push(Exchange::Stitched { window: self.window, fresh: self.fresh }).push(
            Exchange::Formed {
                window: self.window,
                pending: self.pending,
                mode: self.context_mode,
            },
        )
    }
}

/// What the engine thinks of a meta-block.
pub struct Opinion {
    /// The literals it was told of.
    pub num_literals: int,
    /// The bytes it was told of.
    pub bytes: int,
    /// The sample it was shown.
    pub sample: Seq<u32>,
    /// Whether nearly all of the bytes are literals.
    pub mostly_literals: bool,
    /// Whether the sample looks like noise.
    pub noisy: bool,
}

impl Opinion {
    /// The exchanges it took.
    pub open spec fn things(&self) -> Seq<Exchange> {
        seq![
            Exchange::Weighed {
                num_literals: self.num_literals,
                bytes: self.bytes,
                mostly: self.mostly_literals,
            },
            Exchange::Sampled { sample: self.sample, bytes: self.bytes, noisy: self.noisy },
        ]
    }
}

/// A meta-block the engine was asked to write, and what it made of it.
pub struct Storing {
    /// The ring buffer and its mask.
    pub window: (Seq<u8>, usize),
    /// Where the meta-block starts and how long it is.
    pub span: (int, int),
    /// The two bytes before it, the nearer one first.
    pub before: (u8, u8),
    /// Whether it is the last.
    pub is_last: bool,
    /// How literal contexts are formed.
    pub context_mode: u8,
    /// Its commands.
    pub commands: Seq<Command>,
    /// The bits to write it behind, and how many there are.
    pub carried: (u16, u32),
    /// The bytes made.
    pub made: Seq<u8>,
    /// The bit after the last.
    pub end: int,
}

/// What the engine said of a meta-block.
pub struct Verdict {
    /// What it thinks of it, if it was asked.
    pub opinion: Option<Opinion>,
    /// What it wrote, if it was asked.
    pub storing: Option<Storing>,
}

/// Tells the engine of new input, and returns how literal contexts are formed.
///
/// The context mode is chosen over everything pending, before any command is
/// created.
fn ask_guidance<B: BlockEngine>(
    engine: &mut B,
    prepared: bool,
    data: &[u8],
    mask: usize,
    fresh: (usize, usize),
    pending: (usize, usize),
) -> (answer: (u8, Ghost<Guidance>))
    ensures
        answer.1@ == (Guidance {
            prepared: !prepared,
            window: (data@, mask),
            fresh: (fresh.0 as int, fresh.1 as int),
            pending: (pending.0 as int, pending.1 as int),
            context_mode: answer.0,
        }),
        exchanged(*old(engine), answer.1@.things(), *final(engine)),
{
    let ghost first = *engine;
    let ghost mut things: Seq<Exchange> = Seq::empty();
    if !prepared {
        engine.prepare();
        proof {
            lemma_exchanged(first, things, first, Exchange::Prepared, *engine);
            assert(things.push(Exchange::Prepared) =~= seq![Exchange::Prepared]);
            things = seq![Exchange::Prepared];
        }
    }
    let ghost held = *engine;
    engine.stitch(data, mask, fresh.1, fresh.0);
    let ghost stitched = Exchange::Stitched {
        window: (data@, mask),
        fresh: (fresh.0 as int, fresh.1 as int),
    };
    proof {
        lemma_exchanged(first, things, held, stitched, *engine);
    }
    let ghost held = *engine;
    let context_mode: u8 = engine.context_mode(data, mask, pending.0, pending.1);
    proof {
        lemma_exchanged(
            first,
            things.push(stitched),
            held,
            Exchange::Formed {
                window: (data@, mask),
                pending: (pending.0 as int, pending.1 as int),
                mode: context_mode,
            },
            *engine,
        );
    }
    let ghost guidance = Guidance {
        prepared: !prepared,
        window: (data@, mask),
        fresh: (fresh.0 as int, fresh.1 as int),
        pending: (pending.0 as int, pending.1 as int),
        context_mode,
    };
    (context_mode, Ghost(guidance))
}

/// Asks the engine what it thinks of a meta-block.
fn ask_opinion<B: BlockEngine>(engine: &mut B, num_literals: usize, bytes: usize, sample: &Histogram) -> (
    answer: (bool, bool, Ghost<Opinion>))
    ensures
        answer.2@ == (Opinion {
            num_literals: num_literals as int,
            bytes: bytes as int,
            sample: sample@,
            mostly_literals: answer.0,
            noisy: answer.1,
        }),
        exchanged(*old(engine), answer.2@.things(), *final(engine)),
{
    let ghost first = *engine;
    let mostly_literals: bool = engine.mostly_literals(num_literals, bytes);
    let ghost weighed = Exchange::Weighed {
        num_literals: num_literals as int,
        bytes: bytes as int,
        mostly: mostly_literals,
    };
    proof {
        lemma_exchanged(first, Seq::empty(), first, weighed, *engine);
    }
    let ghost held = *engine;
    let noisy: bool = engine.noisy(sample, bytes);
    proof {
        let sampled = Exchange::Sampled { sample: sample@, bytes: bytes as int, noisy };
        lemma_exchanged(first, Seq::empty().push(weighed), held, sampled, *engine);
        assert(Seq::empty().push(weighed).push(sampled) =~= seq![weighed, sampled]);
    }
    let ghost opinion = Opinion {
        num_literals: num_literals as int,
        bytes: bytes as int,
        sample: sample@,
        mostly_literals,
        noisy,
    };
    (mostly_literals, noisy, Ghost(opinion))
}

/// The literals a compressibility check looks at: every thirteenth byte.
pub open spec fn sampled(data: Seq<u8>, mask: usize, position: int, count: int) -> Seq<u8> {
    Seq::new(
        count as nat,
        |i: int| search::byte_at(data, ((position + SAMPLE_RATE * i) as usize & mask) as int),
    )
}

/// How many literals a compressibility check looks at.
pub open spec fn sample_count(bytes: int) -> int {
    (bytes + SAMPLE_RATE - 1) / SAMPLE_RATE as int
}

/// Counts every thirteenth byte of a meta-block.
pub fn sample_literals(data: &[u8], mask: usize, position: usize, bytes: usize) -> (sample: Histogram)
    requires
        bytes <= 0x100_0000,
        position + bytes + SAMPLE_RATE <= usize::MAX,
    ensures
        sample.wf(),
        sample@.len() == NUM_LITERAL_SYMBOLS,
        sample.total == sample_count(bytes as int),
        forall|s: int|
            0 <= s < 256 ==> #[trigger] sample@[s] == math::tally(
                sampled(data@, mask, position as int, sample_count(bytes as int)),
                |b: u8| b == s,
            ),
{
    let samples: usize = (bytes + SAMPLE_RATE - 1) / SAMPLE_RATE;
    let mut sample = Histogram::new(NUM_LITERAL_SYMBOLS);
    let mut i: usize = 0;
    while i < samples
        invariant
            samples == sample_count(bytes as int),
            bytes <= 0x100_0000,
            position + bytes + SAMPLE_RATE <= usize::MAX,
            i <= samples,
            sample.wf(),
            sample@.len() == NUM_LITERAL_SYMBOLS,
            sample.total == i,
            forall|s: int|
                0 <= s < 256 ==> #[trigger] sample@[s] == math::tally(
                    sampled(data@, mask, position as int, i as int),
                    |b: u8| b == s,
                ),
        decreases samples - i,
    {
        let at: usize = (position + SAMPLE_RATE * i) & mask;
        let byte: u8 = if at < data.len() {
            data[at]
        } else {
            0
        };
        let ghost held = sample@;
        sample.add(byte as usize);
        proof {
            let longer = sampled(data@, mask, position as int, i + 1);
            assert(longer.drop_last() =~= sampled(data@, mask, position as int, i as int));
            assert(longer.last() == byte);
            assert forall|s: int| 0 <= s < 256 implies #[trigger] sample@[s] == math::tally(
                longer,
                |b: u8| b == s,
            ) by {
                assert(held[s] == math::tally(longer.drop_last(), |b: u8| b == s));
            }
        }
        i += 1;
    }
    sample
}

/// A meta-block is worth compressing.
pub open spec fn worth_it(bytes: int, num_commands: int, mostly_literals: bool, noisy: bool) -> bool {
    bytes > 2 && (num_commands >= bytes / 256 + 2 || !mostly_literals || !noisy)
}

/// Whether a meta-block is worth compressing.
///
/// A tiny one never is, one with commands to spare always; in between it is
/// unless nearly all of it is literals and those look like noise.
pub fn should_compress(bytes: usize, num_commands: usize, mostly_literals: bool, noisy: bool) -> (worth:
    bool)
    ensures
        worth == worth_it(bytes as int, num_commands as int, mostly_literals, noisy),
{
    if bytes <= 2 {
        return false;
    }
    if num_commands >= bytes / 256 + 2 {
        return true;
    }
    !mostly_literals || !noisy
}

/// The bytes of a meta-block.
pub open spec fn verbatim(data: Seq<u8>, mask: usize, position: int, len: int) -> Seq<u8> {
    Seq::new(
        len as nat,
        |i: int| search::byte_at(data, (((position + i) as usize) & mask) as int),
    )
}

/// Copies the bytes of a meta-block out of the ring buffer.
pub fn copy_verbatim(data: &[u8], mask: usize, position: usize, len: usize) -> (bytes: Vec<u8>)
    requires
        position + len <= usize::MAX,
    ensures
        bytes@ == verbatim(data@, mask, position as int, len as int),
{
    let mut bytes: Vec<u8> = Vec::new();
    let mut i: usize = 0;
    while i < len
        invariant
            position + len <= usize::MAX,
            i <= len,
            bytes@ == verbatim(data@, mask, position as int, i as int),
        decreases len - i,
    {
        let at: usize = (position + i) & mask;
        bytes.push(
            if at < data.len() {
                data[at]
            } else {
                0
            },
        );
        i += 1;
        assert(bytes@ =~= verbatim(data@, mask, position as int, i as int));
    }
    bytes
}

/// Where the bytes of a verbatim meta-block start.
pub open spec fn verbatim_start(position: int, len: int) -> int {
    header::aligned(position + header::header_bits(len)) / 8
}

/// Writes a meta-block verbatim, and after the last one the mark that ends the
/// stream.
pub fn store_uncompressed_meta_block(is_last: bool, bytes: &[u8], w: &mut BitWriter)
    requires
        1 <= bytes@.len() <= header::MAX_META_BLOCK,
        old(w).position + 8 * bytes@.len() + 128 <= usize::MAX,
        old(w).position + 8 * bytes@.len() + 256 <= 8 * old(w).storage@.len(),
        !old(w).overflowed,
    ensures
        ({
            let start = verbatim_start(old(w).position as int, bytes@.len() as int);
            &&& final(w).position == 8 * (start + bytes@.len()) + if is_last {
                8int
            } else {
                0
            }
            &&& final(w).storage@.take(start + bytes@.len()) == header::with_verbatim(
                old(w).storage@,
                old(w).position as int,
                bytes@,
            )
            &&& final(w).storage@[start + bytes@.len()] == if is_last {
                3u8
            } else {
                0
            }
            &&& is_last ==> final(w).storage@[start + bytes@.len() + 1] == 0
        }),
        !final(w).overflowed,
        final(w).storage@.len() == old(w).storage@.len(),
        final(final(w).storage)@ == final(old(w).storage)@,
{
    let ghost len = bytes@.len() as int;
    let ghost start = verbatim_start(w.position as int, len);
    store_meta_block_header(bytes.len(), true, w);
    let ghost headed = w.storage@;
    w.jump_to_byte_boundary();
    assert(w.position == 8 * start);
    w.write_bytes(bytes);
    let ghost body = w.storage@;
    assert(body.take(start + len) =~= headed.take(start) + bytes@);
    assert(body[start + len] == 0);
    if is_last {
        proof {
            math::lemma_closing_bits();
        }
        w.write(2, 3);
        proof {
            assert(w.storage@.take(start + len) =~= body.take(start + len));
        }
        w.jump_to_byte_boundary();
        proof {
            assert(w.storage@.take(start + len) =~= body.take(start + len));
        }
    }
}

/// A copy goes on for `k` of at most `most` bytes.
pub open spec fn goes_on(
    data: Seq<u8>,
    mask: usize,
    position: int,
    distance: int,
    most: int,
    k: int,
) -> bool {
    &&& 0 <= k <= most
    &&& forall|i: int| 0 <= i < k ==> #[trigger] repeats_at(data, mask, position + i, distance)
    &&& k < most ==> !repeats_at(data, mask, position + k, distance)
}

/// A byte repeats the one a distance back.
pub open spec fn repeats_at(data: Seq<u8>, mask: usize, position: int, distance: int) -> bool {
    let here = ((position as usize) & mask) as int;
    let back = (((position - distance) as usize) & mask) as int;
    &&& here < data.len()
    &&& back < data.len()
    &&& data[here] == data[back]
}

/// Returns how many of at most `most` bytes a copy goes on for.
pub fn count_on(data: &[u8], mask: usize, position: usize, distance: usize, most: usize) -> (k: usize)
    requires
        distance <= position,
        position + most <= usize::MAX,
    ensures
        goes_on(data@, mask, position as int, distance as int, most as int, k as int),
{
    let mut k: usize = 0;
    while k < most
        invariant_except_break
            distance <= position,
            position + most <= usize::MAX,
            k <= most,
            forall|i: int|
                0 <= i < k ==> #[trigger] repeats_at(
                    data@,
                    mask,
                    position + i,
                    distance as int,
                ),
        ensures
            goes_on(data@, mask, position as int, distance as int, most as int, k as int),
        decreases most - k,
    {
        let here: usize = (position + k) & mask;
        let back: usize = (position + k - distance) & mask;
        if here >= data.len() || back >= data.len() || data[here] != data[back] {
            assert(!repeats_at(data@, mask, position + k, distance as int));
            break;
        }
        assert(repeats_at(data@, mask, position + k, distance as int));
        k += 1;
    }
    k
}

/// Streaming encoder for the two highest qualities.
pub struct HqEncoder {
    /// The instructions a search uses.
    pub backend: Backend,
    /// What the caller's parameters resolved to.
    pub params: HqParams,
    /// The window.
    pub ringbuffer: RingBuffer,
    /// Whether the match finder is set up.
    pub is_prepared: bool,
    /// Bytes taken in.
    pub input_pos: u64,
    /// Bytes turned into commands.
    pub last_processed_pos: u64,
    /// Bytes written out.
    pub last_flush_pos: u64,
    /// Commands of the pending meta-block.
    pub commands: Vec<Command>,
    /// Distances and literals carried between blocks.
    pub references: ZopfliState,
    /// The distances the pending meta-block started with.
    pub saved_dist_cache: [i32; 4],
    /// The byte before the pending meta-block.
    pub prev_byte: u8,
    /// The byte before that.
    pub prev_byte2: u8,
    /// Bits not yet a whole byte.
    pub last_bytes: u16,
    /// How many there are.
    pub last_bytes_bits: u32,
    /// Whether the last block was taken in.
    pub is_last_block_emitted: bool,
    /// Whether the stream is complete.
    pub finished: bool,
    /// What the engine was last told of new input.
    pub guidance: Ghost<Option<Guidance>>,
    /// What the engine said of the last meta-block.
    pub verdict: Ghost<Verdict>,
}

impl HqEncoder {
    /// The positions are in order, and the commands and waiting literals account
    /// for every byte between what was written and what was processed, and read back
    /// to it.
    pub open spec fn wf(&self) -> bool {
        &&& self.flushable()
        &&& self.last_processed_pos - self.last_flush_pos + power2::pow2(self.params.lgblock as nat)
            <= self.params.most_bytes()
        &&& self.tells_to(self.last_processed_pos as int)
        &&& self.ends_in_copy()
    }

    /// How far the stream's copies may reach.
    pub open spec fn bounds(&self) -> Bounds {
        Bounds {
            limit: power2::pow2(self.params.lgwin as nat) - 16,
            max_distance: self.params.dist.max_distance as int,
        }
    }

    /// The pending commands, read back from the distances that the meta-block started
    /// with, give the input up to a position, but for the literals that wait, and
    /// leave the distances cached.
    pub open spec fn tells_to(&self, position: int) -> bool {
        let start = self.last_flush_pos as int;
        let cache = self.saved_dist_cache@;
        &&& retold::faithful(
            self.ringbuffer.history@,
            self.bounds(),
            start,
            cache,
            self.commands@,
        )
        &&& retold::retold(self.bounds(), start, cache, self.commands@) == (
            position - self.references.last_insert_len,
            self.references.dist_cache@,
        )
    }

    /// The last pending command, if there is one, copies something.
    pub open spec fn ends_in_copy(&self) -> bool {
        self.commands@.len() > 0 ==> self.commands@.last().copy_len > 0
    }

    /// A wrapped position stands for a position of the input that was just taken in.
    pub open spec fn stands_for(&self, position: int, from: int) -> bool {
        let size = self.ringbuffer.size as int;
        &&& 0 <= from <= self.input_pos
        &&& position % size == from % size
        &&& position == from || position >= self.bounds().limit && from >= self.bounds().limit
        &&& self.input_pos - from <= self.ringbuffer.tail_size
        &&& self.bounds().limit + self.ringbuffer.tail_size <= size
    }

    /// What holds as well right before a meta-block is written.
    pub open spec fn flushable(&self) -> bool {
        &&& self.pending_ok()
        &&& backward_references::accounted(self.commands@) + self.references.last_insert_len
            == self.last_processed_pos - self.last_flush_pos
        &&& backward_references::inserted(self.commands@) == self.references.num_literals
    }

    /// What holds as well while a block is turned into commands.
    pub open spec fn pending_ok(&self) -> bool {
        &&& self.params.wf()
        &&& self.ringbuffer.wf()
        &&& self.ringbuffer.size == power2::pow2(self.params.ring_bits() as nat)
        &&& self.ringbuffer.tail_size == power2::pow2(self.params.lgblock as nat)
        &&& self.ringbuffer.history@.len() == self.input_pos
        &&& self.last_flush_pos <= self.last_processed_pos <= self.input_pos
        &&& self.input_pos - self.last_processed_pos <= power2::pow2(self.params.lgblock as nat)
        &&& path::distances_ok(self.references.dist_cache@)
        &&& path::distances_ok(self.saved_dist_cache@)
        &&& self.last_bytes_bits <= 14
        &&& self.input_pos <= MAX_STREAM_POSITION
    }

    /// What does not change while a stream runs.
    pub open spec fn same_stream(&self, before: &Self) -> bool {
        &&& self.params == before.params
        &&& self.backend == before.backend
        &&& self.input_pos == before.input_pos
        &&& self.ringbuffer == before.ringbuffer
    }

    /// Creates an encoder.
    ///
    /// A quality outside the range this encoder implements is refused.
    pub fn new(backend: Backend, settings: &CompressParams) -> (result: BrotliResult<Self>)
        ensures
            match HqQuality::route(settings@.quality) {
                Ok(quality) => result is Ok && ({
                    let encoder = result->Ok_0;
                    &&& encoder.wf()
                    &&& encoder.params == HqParams::resolved(settings@, quality)
                    &&& encoder.input_pos == 0
                    &&& encoder.commands@.len() == 0
                    &&& encoder.references.dist_cache@ == seq![4i32, 11, 15, 16]
                    &&& !encoder.finished
                    &&& !encoder.is_last_block_emitted
                    &&& encoder.ringbuffer.cur_size == 0
                    &&& (
                        encoder.last_bytes as int,
                        encoder.last_bytes_bits as int,
                    ) == crate::hq::params::stream_header(
                        settings@.lgwin.value() as int,
                        settings@.lgwin.large_header(),
                    )
                }),
                Err(error) => result == Err::<Self, _>(error),
            },
    {
        let params: HqParams = match HqParams::new(settings) {
            Ok(params) => params,
            Err(error) => return Err(error),
        };
        let (last_bytes, last_bytes_bits) = params.header();
        let references = ZopfliState::default();
        let rb_bits: usize = params.rb_bits();
        proof {
            params.lemma_block_fits();
            power2::lemma2_to64();
            if rb_bits < 31 {
                power2::lemma_pow2_strictly_increases(rb_bits as nat, 31);
            }
            if params.lgblock < 24 {
                power2::lemma_pow2_strictly_increases(params.lgblock as nat, 24);
            }
        }
        let ringbuffer = RingBuffer::new(rb_bits, params.lgblock);
        Ok(
            HqEncoder {
                backend,
                params,
                ringbuffer,
                is_prepared: false,
                input_pos: 0,
                last_processed_pos: 0,
                last_flush_pos: 0,
                commands: Vec::new(),
                saved_dist_cache: references.dist_cache,
                references,
                prev_byte: 0,
                prev_byte2: 0,
                last_bytes,
                last_bytes_bits,
                is_last_block_emitted: false,
                finished: false,
                guidance: Ghost(None),
                verdict: Ghost(Verdict { opinion: None, storing: None }),
            },
        )
    }

    /// Returns the largest input this encoder accepts in one call.
    pub fn block_size_limit(&self) -> (limit: usize)
        requires
            self.params.wf(),
        ensures
            limit == power2::pow2(self.params.lgblock as nat),
    {
        self.params.input_block_size()
    }

    /// Returns whether the final meta-block has already been written.
    pub fn is_finished(&self) -> (finished: bool)
        ensures
            finished == self.finished,
    {
        self.finished
    }

    /// Appends `input` to the window.
    pub fn copy_input_to_ring_buffer(&mut self, input: &[u8])
        requires
            old(self).wf(),
            input@.len() <= power2::pow2(old(self).params.lgblock as nat),
            old(self).input_pos == old(self).last_processed_pos,
            old(self).input_pos + input@.len() <= MAX_STREAM_POSITION,
        ensures
            final(self).wf(),
            final(self).input_pos == old(self).input_pos + input@.len(),
            final(self).ringbuffer.history@ == old(self).ringbuffer.history@ + input@,
            input@.len() == 0 ==> final(self).ringbuffer == old(self).ringbuffer,
            *final(self) == (HqEncoder {
                input_pos: final(self).input_pos,
                ringbuffer: final(self).ringbuffer,
                ..*old(self)
            }),
    {
        if input.len() == 0 {
            assert(self.ringbuffer.history@ + input@ =~= self.ringbuffer.history@);
            return;
        }
        proof {
            self.params.lemma_block_fits();
        }
        proof {
            retold::lemma_longer_input(
                self.ringbuffer.history@,
                input@,
                self.bounds(),
                self.last_flush_pos as int,
                self.saved_dist_cache@,
                self.commands@,
            );
        }
        self.ringbuffer.write(input);
        self.input_pos = self.input_pos + input.len() as u64;
        self.ringbuffer.clear_margin();
    }

    /// Marks the input as processed, and returns whether positions wrapped.
    pub fn update_last_processed_pos(&mut self) -> (wrapped: bool)
        ensures
            *final(self) == (HqEncoder { last_processed_pos: old(self).input_pos, ..*old(self) }),
            wrapped == (ringbuffer::wrapped_position(old(self).input_pos as int)
                < ringbuffer::wrapped_position(old(self).last_processed_pos as int)),
    {
        let before: u32 = wrap_position(self.last_processed_pos);
        let after: u32 = wrap_position(self.input_pos);
        self.last_processed_pos = self.input_pos;
        after < before
    }

    /// The carried bits with the two that end the stream.
    pub open spec fn ended(&self) -> u32 {
        self.last_bytes as u32 | (3u32 << self.last_bytes_bits)
    }

    /// Returns the bytes that end the stream with nothing pending.
    pub fn closing_bytes(&self) -> (bytes: Vec<u8>)
        requires
            self.last_bytes_bits <= 14,
        ensures
            bytes@ == if self.last_bytes_bits + 2 <= 8 {
                seq![(self.ended() % 256) as u8]
            } else {
                seq![(self.ended() % 256) as u8, (self.ended() / 256 % 256) as u8]
            },
    {
        let value: u32 = self.last_bytes as u32 | (3u32 << self.last_bytes_bits);
        let mut bytes: Vec<u8> = Vec::new();
        bytes.push((value % 256) as u8);
        if self.last_bytes_bits + 2 > 8 {
            bytes.push((value / 256 % 256) as u8);
        }
        bytes
    }

    /// Another block may join the pending meta-block.
    pub open spec fn merges(&self, is_last: bool) -> bool {
        &&& !is_last
        &&& self.input_pos - self.last_flush_pos + power2::pow2(self.params.lgblock as nat)
            <= self.params.most_bytes()
        &&& self.references.num_literals < self.params.most_bytes() / 8
        &&& self.commands@.len() < self.params.most_bytes() / 8
    }

    /// Returns whether another block may join the pending meta-block.
    fn may_merge(&self, is_last: bool) -> (merge: bool)
        requires
            self.params.wf(),
            self.last_flush_pos <= self.input_pos,
            self.input_pos - self.last_flush_pos <= 0x100_0000,
        ensures
            merge == self.merges(is_last),
    {
        let most: usize = self.params.max_metablock_size();
        let pending: usize = (self.input_pos - self.last_flush_pos) as usize;
        !is_last && pending + self.params.input_block_size() <= most && self.references.num_literals
            < most / 8 && self.commands.len() < most / 8
    }

    /// A command's distance is the last one, as far as the cache tells.
    pub open spec fn repeats_last(&self, command: Command) -> bool {
        let last = self.references.dist_cache@[0] as int;
        let before = self.last_processed_pos - command.copy_len;
        &&& command.distance_code < 16 || command.distance_code - 15 == last
        &&& last <= before
        &&& last <= power2::pow2(self.params.lgwin as nat) - 16
    }

    /// Lets the last command go on into the new block, and returns by how much.
    ///
    /// A copy that ran off the end of the block before is cheaper to grow than to
    /// start over.
    fn extend_last_command(&mut self, position: usize, bytes: usize) -> (k: usize)
        requires
            old(self).wf(),
            old(self).commands@.len() > 0,
            old(self).references.last_insert_len == 0,
            position == ringbuffer::wrapped_position(old(self).last_processed_pos as int),
            bytes == old(self).input_pos - old(self).last_processed_pos,
        ensures
            k <= bytes,
            *final(self) == (HqEncoder { commands: final(self).commands, ..*old(self) }),
            final(self).commands@ == old(self).commands@.update(
                old(self).commands@.len() - 1,
                (Command {
                    copy_len: final(self).commands@.last().copy_len,
                    ..old(self).commands@.last()
                }),
            ),
            final(self).commands@.last().copy_len == old(self).commands@.last().copy_len + k,
            old(self).repeats_last(old(self).commands@.last()) ==> goes_on(
                old(self).buffer_of(),
                old(self).ringbuffer.mask,
                position as int,
                old(self).references.dist_cache@[0] as int,
                bytes as int,
                k as int,
            ),
            !old(self).repeats_last(old(self).commands@.last()) ==> k == 0,
    {
        let at: usize = self.commands.len() - 1;
        let mut command: Command = self.commands[at];
        proof {
            lemma_last_accounted(self.commands@);
            self.params.lemma_block_fits();
        }
        let last: usize = self.references.dist_cache[0] as usize;
        let limit: usize = self.params.max_backward_limit();
        let before: u64 = self.last_processed_pos - command.copy_len as u64;
        let mut k: usize = 0;
        assert(path::distances_ok(self.references.dist_cache@));
        if (command.distance_code < 16 || command.distance_code - 15 == last) && last as u64
            <= before && last <= limit {
            let mask: usize = self.ringbuffer.mask();
            k = count_on(self.ringbuffer.buffer(), mask, position, last, bytes);
        }
        command.copy_len = command.copy_len + k;
        self.commands.set(at, command);
        k
    }

    /// The bytes the window holds.
    pub open spec fn buffer_of(&self) -> Seq<u8> {
        if self.ringbuffer.data@.len() >= ringbuffer::HEAD_ROOM {
            self.ringbuffer.data@.skip(ringbuffer::HEAD_ROOM as int)
        } else {
            Seq::empty()
        }
    }
}

/// What writing a meta-block came to: the bytes, and the bit after the last.
pub struct Written {
    /// The bytes, the last of them perhaps in part.
    pub storage: Vec<u8>,
    /// The bit after the last.
    pub position: usize,
    /// Whether the bytes were stored as they are.
    pub stored: bool,
}

impl HqEncoder {
    /// Writes the pending bytes as they are.
    fn write_verbatim(&self, bytes: usize, is_last: bool) -> (out: Written)
        requires
            self.flushable(),
            1 <= bytes <= 0x100_0000,
            bytes == self.input_pos - self.last_flush_pos,
        ensures
            self.verbatim_written(&out, bytes as int, is_last),
    {
        proof {
            lemma_wrap_bound(self.last_flush_pos as int);
        }
        let position: usize = wrap_position(self.last_flush_pos) as usize;
        let payload: Vec<u8> = copy_verbatim(
            self.ringbuffer.buffer(),
            self.ringbuffer.mask(),
            position,
            bytes,
        );
        let mut storage: Vec<u8> = vec![0u8; bytes + 64];
        storage.set(0, (self.last_bytes % 256) as u8);
        storage.set(1, (self.last_bytes / 256) as u8);
        let mut w = BitWriter::new(storage.as_mut_slice(), self.last_bytes_bits as usize);
        assert(w.storage@ =~= self.carried_storage(bytes as int));
        store_uncompressed_meta_block(is_last, payload.as_slice(), &mut w);
        let end: usize = w.position();
        Written { storage, position: end, stored: true }
    }

    /// Storage that begins with the carried bits.
    pub open spec fn carried_storage(&self, bytes: int) -> Seq<u8> {
        Seq::new((bytes + 64) as nat, |i: int| 0u8).update(
            0,
            (self.last_bytes % 256) as u8,
        ).update(1, (self.last_bytes / 256) as u8)
    }

    /// The pending bytes stand in the output as they are, behind the carried bits and
    /// their header.
    pub open spec fn verbatim_written(&self, out: &Written, bytes: int, is_last: bool) -> bool {
        let start = verbatim_start(self.last_bytes_bits as int, bytes);
        &&& out.stored
        &&& out.position == 8 * (start + bytes) + if is_last {
            8int
        } else {
            0
        }
        &&& out.position / 8 < out.storage@.len()
        &&& out.storage@.take(start + bytes) == header::with_verbatim(
            self.carried_storage(bytes),
            self.last_bytes_bits as int,
            verbatim(
                self.buffer_of(),
                self.ringbuffer.mask,
                ringbuffer::wrapped_position(self.last_flush_pos as int),
                bytes,
            ),
        )
        &&& out.storage@[start + bytes] == if is_last {
            3u8
        } else {
            0
        }
        &&& is_last ==> out.storage@[start + bytes + 1] == 0
    }

    /// The engine was asked about the pending bytes.
    pub open spec fn asks_about(&self, bytes: int, opinion: Opinion) -> bool {
        &&& opinion.num_literals == self.references.num_literals
        &&& opinion.bytes == bytes
        &&& opinion.sample.len() == NUM_LITERAL_SYMBOLS
        &&& forall|s: int|
            0 <= s < 256 ==> #[trigger] opinion.sample[s] == math::tally(
                sampled(
                    self.buffer_of(),
                    self.ringbuffer.mask,
                    ringbuffer::wrapped_position(self.last_flush_pos as int),
                    sample_count(bytes),
                ),
                |b: u8| b == s,
            )
    }

    /// The engine was asked to write the pending bytes.
    pub open spec fn asks_to_store(
        &self,
        bytes: int,
        is_last: bool,
        context_mode: u8,
        storing: Storing,
    ) -> bool {
        &&& storing.window == (self.buffer_of(), self.ringbuffer.mask)
        &&& storing.span == (ringbuffer::wrapped_position(self.last_flush_pos as int), bytes)
        &&& storing.before == (self.prev_byte, self.prev_byte2)
        &&& storing.is_last == is_last
        &&& storing.context_mode == context_mode
        &&& storing.commands == self.commands@
        &&& storing.carried == (self.last_bytes, self.last_bytes_bits)
    }

    /// What becomes of a compressed meta-block: it is kept, unless it is larger than
    /// the bytes as they are, which are then stored, or ran past its buffer.
    pub open spec fn kept_or_not(
        &self,
        made: Seq<u8>,
        end: int,
        bytes: int,
        is_last: bool,
        result: BrotliResult<Written>,
    ) -> bool {
        if end / 8 > bytes + 4 {
            result matches Ok(out) && self.verbatim_written(&out, bytes, is_last)
        } else if end / 8 >= made.len() {
            result == Err::<Written, _>(BrotliCompressError::BufferOverflow)
        } else {
            result matches Ok(out) && out.storage@ == made && out.position == end && !out.stored
        }
    }

    /// Settles what becomes of a compressed meta-block that was written to `storage`
    /// up to the bit `end`.
    pub fn settle_stored(&self, storage: Vec<u8>, end: usize, bytes: usize, is_last: bool) -> (result:
        BrotliResult<Written>)
        requires
            self.flushable(),
            1 <= bytes <= 0x100_0000,
            bytes == self.input_pos - self.last_flush_pos,
        ensures
            self.kept_or_not(storage@, end as int, bytes as int, is_last, result),
    {
        if end / 8 > bytes + 4 {
            return Ok(self.write_verbatim(bytes, is_last));
        }
        if end / 8 >= storage.len() {
            return Err(BrotliCompressError::BufferOverflow);
        }
        Ok(Written { storage, position: end, stored: false })
    }

    /// What becomes of the pending bytes, by what the engine says of them.
    ///
    /// What is not worth compressing, and what compressing made larger, is stored as
    /// it is. A meta-block that ran past its buffer is refused.
    pub open spec fn comes_to<B: BlockEngine>(
        &self,
        bytes: int,
        is_last: bool,
        context_mode: u8,
        verdict: Verdict,
        engine: B,
        after: B,
        result: BrotliResult<Written>,
    ) -> bool {
        if bytes == 0 {
            &&& engine == after
            &&& result matches Ok(out) && out.storage@ == self.closed() && out.position == 8
                * out.storage@.len() && !out.stored
        } else {
            &&& verdict.opinion matches Some(opinion) && self.asks_about(bytes, opinion)
                && if !worth_it(
                bytes,
                self.commands@.len() as int,
                opinion.mostly_literals,
                opinion.noisy,
            ) {
                &&& exchanged(engine, opinion.things(), after)
                &&& result matches Ok(out) && self.verbatim_written(&out, bytes, is_last)
            } else {
                &&& verdict.storing matches Some(storing) && self.asks_to_store(
                    bytes,
                    is_last,
                    context_mode,
                    storing,
                ) && exchanged(
                    engine,
                    opinion.things().push(Exchange::Stored(storing)),
                    after,
                ) && self.kept_or_not(
                    storing.made,
                    storing.end,
                    bytes,
                    is_last,
                    result,
                )
            }
        }
    }

    /// Writes one meta-block.
    ///
    /// What is not worth compressing, and what compressing made larger, is stored
    /// as it is, and the distances go back to those the meta-block started with. A
    /// meta-block that ran past its buffer is refused.
    fn write_meta_block<B: BlockEngine>(
        &mut self,
        bytes: usize,
        is_last: bool,
        context_mode: u8,
        engine: &mut B,
    ) -> (result: BrotliResult<Written>)
        requires
            old(self).flushable(),
            bytes <= 0x100_0000,
            bytes == old(self).input_pos - old(self).last_flush_pos,
        ensures
            *final(self) == (HqEncoder {
                references: final(self).references,
                verdict: final(self).verdict,
                ..*old(self)
            }),
            old(self).comes_to::<B>(
                bytes as int,
                is_last,
                context_mode,
                final(self).verdict@,
                *old(engine),
                *final(engine),
                result,
            ),
            final(self).references == (ZopfliState {
                dist_cache: final(self).references.dist_cache,
                ..old(self).references
            }),
            final(self).references.dist_cache@ == if result is Ok && result->Ok_0.stored {
                old(self).saved_dist_cache@
            } else {
                old(self).references.dist_cache@
            },
            result matches Ok(out) ==> out.position / 8 <= out.storage@.len(),
    {
        if bytes == 0 {
            let storage: Vec<u8> = self.closing_bytes();
            let position: usize = 8 * storage.len();
            return Ok(Written { storage, position, stored: false });
        }
        proof {
            lemma_wrap_bound(self.last_flush_pos as int);
        }
        let position: usize = wrap_position(self.last_flush_pos) as usize;
        let sample = sample_literals(self.ringbuffer.buffer(), self.ringbuffer.mask(), position, bytes);
        let (mostly, noisy, Ghost(opinion)) = ask_opinion(
            engine,
            self.references.num_literals,
            bytes,
            &sample,
        );
        self.verdict = Ghost(Verdict { opinion: Some(opinion), storing: None });
        if should_compress(bytes, self.commands.len(), mostly, noisy) {
            let block = MetaBlock {
                data: self.ringbuffer.buffer(),
                mask: self.ringbuffer.mask(),
                position,
                bytes,
                prev_byte: self.prev_byte,
                prev_byte2: self.prev_byte2,
                is_last,
                context_mode,
                commands: self.commands.as_slice(),
            };
            let ghost handed = block;
            let ghost held = *engine;
            let (storage, end) = engine.store_meta_block(
                block,
                self.last_bytes,
                self.last_bytes_bits,
            );
            self.verdict = Ghost(
                Verdict {
                    opinion: Some(opinion),
                    storing: Some(
                        handed.storing(
                            self.last_bytes,
                            self.last_bytes_bits,
                            storage@,
                            end as int,
                        ),
                    ),
                },
            );
            proof {
                lemma_exchanged(
                    *old(engine),
                    opinion.things(),
                    held,
                    Exchange::Stored(self.verdict@.storing->0),
                    *engine,
                );
            }
            let settled: BrotliResult<Written> = self.settle_stored(storage, end, bytes, is_last);
            if let Ok(out) = &settled {
                if out.stored {
                    self.references.dist_cache = self.saved_dist_cache;
                }
            }
            return settled;
        }
        let out: Written = self.write_verbatim(bytes, is_last);
        self.references.dist_cache = self.saved_dist_cache;
        Ok(out)
    }

    /// The bytes that end the stream with nothing pending.
    pub open spec fn closed(&self) -> Seq<u8> {
        if self.last_bytes_bits + 2 <= 8 {
            seq![(self.ended() % 256) as u8]
        } else {
            seq![(self.ended() % 256) as u8, (self.ended() / 256 % 256) as u8]
        }
    }

    /// A meta-block that was written out is settled: nothing is pending, and the
    /// last two bytes, the distances and the last partial byte are carried on.
    pub open spec fn settled(&self, out: &Written, is_last: bool) -> bool {
        &&& self.last_flush_pos == self.input_pos
        &&& self.last_processed_pos == self.input_pos
        &&& self.commands@.len() == 0
        &&& self.references.num_literals == 0
        &&& self.references.last_insert_len == 0
        &&& self.saved_dist_cache@ == self.references.dist_cache@
        &&& self.last_bytes_bits == out.position % 8
        &&& self.last_bytes == if out.position / 8 < out.storage@.len() {
            out.storage@[out.position as int / 8]
        } else {
            0
        }
        &&& self.input_pos > 0 ==> self.prev_byte == self.ringbuffer.history@[self.input_pos - 1]
        &&& self.input_pos > 1 ==> self.prev_byte2 == self.ringbuffer.history@[self.input_pos - 2]
        &&& self.finished == is_last
    }

    /// Takes the encoder past a meta-block that was written out, and returns its
    /// whole bytes.
    fn settle(&mut self, out: Written, is_last: bool) -> (bytes: Vec<u8>)
        requires
            old(self).flushable(),
            out.position / 8 <= out.storage@.len(),
            old(self).references.last_insert_len == 0,
        ensures
            final(self).wf(),
            final(self).same_stream(old(self)),
            final(self).settled(&out, is_last),
            final(self).references.dist_cache == old(self).references.dist_cache,
            final(self).verdict == old(self).verdict,
            bytes@ == out.storage@.take(out.position as int / 8),
            final(self).is_last_block_emitted == old(self).is_last_block_emitted,
    {
        let complete: usize = out.position / 8;
        self.last_bytes = if complete < out.storage.len() {
            out.storage[complete] as u16
        } else {
            0
        };
        self.last_bytes_bits = (out.position % 8) as u32;
        self.last_flush_pos = self.input_pos;
        if self.update_last_processed_pos() {
            self.is_prepared = false;
        }
        if self.input_pos > 0 {
            self.prev_byte = self.byte_before(1);
        }
        if self.input_pos > 1 {
            self.prev_byte2 = self.byte_before(2);
        }
        self.commands.clear();
        self.references.num_literals = 0;
        self.saved_dist_cache = self.references.dist_cache;
        self.finished = is_last;
        proof {
            self.params.lemma_block_fits();
        }
        let mut bytes: Vec<u8> = out.storage;
        bytes.truncate(complete);
        assert(bytes@ =~= out.storage@.take(complete as int));
        bytes
    }

    /// Returns a byte a little before the end of the input.
    fn byte_before(&self, back: u64) -> (byte: u8)
        requires
            self.ringbuffer.wf(),
            self.ringbuffer.history@.len() == self.input_pos,
            1 <= back <= 2,
            back <= self.input_pos,
        ensures
            byte == self.ringbuffer.history@[self.input_pos - back],
    {
        let ghost p = self.input_pos - back;
        let size: u64 = self.ringbuffer.size as u64;
        let at: usize = ((self.input_pos - back) % size) as usize;
        proof {
            assert(self.ringbuffer.at(p % (self.ringbuffer.size as int)) == self.ringbuffer.history@[p]);
            div_mod::lemma_mod_bound(p, self.ringbuffer.size as int);
            if self.ringbuffer.cur_size < self.ringbuffer.total_size {
                div_mod::lemma_small_mod(p as nat, self.ringbuffer.size as nat);
            }
        }
        let buffer = self.ringbuffer.buffer();
        if at < buffer.len() {
            buffer[at]
        } else {
            0
        }
    }
}

/// The commands of a stretch are those a search chooses, by what the finders answer
/// and by the prices of the model.
pub open spec fn chosen<C: CostModel, T: TreeMatcher, A: PrefixMatcher>(
    params: &HqParams,
    stretch: &Stretch,
    model: &C,
    priced: &C,
    matchers: (T, T),
    waiting: int,
    made: Seq<Command>,
) -> bool {
    exists|answers: Seq<Option<Answer>>| #[trigger]
        zopfli::answers_ok::<T, A>(stretch, params, answers) && match params.quality {
            HqQuality::Q10 => {
                &&& *priced == model.by_literals(
                    stretch.block_start as int,
                    stretch.data@,
                    stretch.mask,
                    stretch.num_bytes as int,
                )
                &&& made == zopfli::path_commands(
                    stretch,
                    zopfli::walk(
                        stretch,
                        priced,
                        params,
                        zopfli::found_on_the_way(stretch, params, answers),
                    ),
                    waiting,
                )
                &&& candidates::told(
                    matchers.0,
                    zopfli::search_told(stretch, priced, params, answers),
                    matchers.1,
                )
            },
            HqQuality::Q11 => {
                &&& (made, *priced) == zopfli::two_passes(stretch, model, params, answers, waiting)
                &&& candidates::told(
                    matchers.0,
                    zopfli::collect_told(stretch, params, answers, 0),
                    matchers.1,
                )
            },
        }
}

/// Chooses the commands of a stretch, in one pass or in two.
fn choose_commands<C: CostModel, T: TreeMatcher, A: PrefixMatcher>(
    stretch: &Stretch,
    backend: Backend,
    params: &HqParams,
    model: &mut C,
    matcher: &mut T,
    prefix: &mut A,
    state: &mut ZopfliState,
    commands: &mut Vec<Command>,
)
    requires
        stretch.wf(),
        params.wf(),
        old(state).dist_cache@ == stretch.starting@,
        old(state).num_literals + old(state).last_insert_len + stretch.num_bytes <= usize::MAX,
    ensures
        old(commands)@.len() <= final(commands)@.len(),
        final(commands)@.take(old(commands)@.len() as int) == old(commands)@,
        zopfli::written(
            stretch,
            *old(state),
            *final(state),
            final(commands)@.skip(old(commands)@.len() as int),
        ),
        chosen::<C, T, A>(
            params,
            stretch,
            old(model),
            final(model),
            (*old(matcher), *final(matcher)),
            old(state).last_insert_len as int,
            final(commands)@.skip(old(commands)@.len() as int),
        ),
{
    let ghost earlier = commands@;
    let ghost waiting = state.last_insert_len as int;
match params.quality {
        HqQuality::Q10 => {
            create_zopfli_backward_references(
                stretch,
                backend,
                params,
                model,
                matcher,
                prefix,
                state,
                commands,
            );
            proof {
                let answers = choose|answers: Seq<Option<Answer>>| #[trigger]
                    zopfli::answers_ok::<T, A>(stretch, params, answers) && commands@
                        == earlier + zopfli::path_commands(
                        stretch,
                        zopfli::walk(
                            stretch,
                            model,
                            params,
                            zopfli::found_on_the_way(stretch, params, answers),
                        ),
                        waiting,
                    ) && candidates::told(
                        *old(matcher),
                        zopfli::search_told(stretch, model, params, answers),
                        *matcher,
                    );
                assert(zopfli::answers_ok::<T, A>(stretch, params, answers));
                assert(commands@.skip(earlier.len() as int) =~= zopfli::path_commands(
                    stretch,
                    zopfli::walk(
                        stretch,
                        model,
                        params,
                        zopfli::found_on_the_way(stretch, params, answers),
                    ),
                    waiting,
                ));
            }
        },
        HqQuality::Q11 => {
            create_hq_zopfli_backward_references(
                stretch,
                backend,
                params,
                model,
                matcher,
                prefix,
                state,
                commands,
            );
            proof {
                let answers = choose|answers: Seq<Option<Answer>>| #[trigger]
                    zopfli::answers_ok::<T, A>(stretch, params, answers) && ({
                        let (made, priced) = zopfli::two_passes(
                            stretch,
                            old(model),
                            params,
                            answers,
                            waiting,
                        );
                        commands@ == earlier + made && *model == priced
                    }) && candidates::told(
                        *old(matcher),
                        zopfli::collect_told(stretch, params, answers, 0),
                        *matcher,
                    );
                let (made, priced) = zopfli::two_passes(
                    stretch,
                    old(model),
                    params,
                    answers,
                    waiting,
                );
                assert(zopfli::answers_ok::<T, A>(stretch, params, answers));
                assert(commands@.skip(earlier.len() as int) =~= made);
            }
        },
    }
}

impl HqEncoder {
    /// The pending commands and literals account for the input up to a position.
    pub open spec fn accounts_to(&self, position: int) -> bool {
        &&& backward_references::accounted(self.commands@) + self.references.last_insert_len
            == position - self.last_flush_pos
        &&& backward_references::inserted(self.commands@) == self.references.num_literals
    }

    /// A stretch of the window, without attached dictionaries.
    pub open spec fn describes(&self, stretch: &Stretch, position: int, bytes: int) -> bool {
        &&& stretch.data@ == self.buffer_of()
        &&& stretch.mask == self.ringbuffer.mask
        &&& stretch.block_start == position
        &&& stretch.num_bytes == bytes
        &&& stretch.limit == power2::pow2(self.params.lgwin as nat) - 16
        &&& stretch.max_distance == self.params.dist.max_distance
        &&& stretch.gap == 0
        &&& stretch.starting@ == self.references.dist_cache@
    }

    /// Turns the unprocessed input into commands, which read back to it.
    fn create_references<C: CostModel, T: TreeMatcher, A: PrefixMatcher>(
        &mut self,
        position: usize,
        bytes: usize,
        Ghost(from): Ghost<int>,
        model: &mut C,
        matcher: &mut T,
        prefix: &mut A,
    )
        requires
            old(self).params.wf(),
            old(self).ringbuffer.wf(),
            old(self).ringbuffer.size <= 0x8000_0000,
            old(self).ringbuffer.tail_size <= 0x100_0000,
            old(self).ringbuffer.cur_size > 0,
            path::distances_ok(old(self).references.dist_cache@),
            position <= 0xC100_0000,
            bytes <= 0x100_0000,
            from + bytes == old(self).input_pos,
            old(self).accounts_to(from),
            old(self).tells_to(from),
            old(self).ends_in_copy(),
            old(self).stands_for(position as int, from),
            old(self).ringbuffer.history@.len() == old(self).input_pos,
            old(self).input_pos - old(self).last_flush_pos <= 0x100_0000,
        ensures
            *final(self) == (HqEncoder {
                commands: final(self).commands,
                references: final(self).references,
                ..*old(self)
            }),
            final(self).accounts_to(final(self).input_pos as int),
            final(self).tells_to(final(self).input_pos as int),
            final(self).ends_in_copy(),
            path::distances_ok(final(self).references.dist_cache@),
            old(self).commands@.len() <= final(self).commands@.len(),
            final(self).commands@.take(old(self).commands@.len() as int) == old(self).commands@,
            exists|stretch: Stretch| #[trigger]
                old(self).describes(&stretch, position as int, bytes as int) && zopfli::written(
                    &stretch,
                    old(self).references,
                    final(self).references,
                    final(self).commands@.skip(old(self).commands@.len() as int),
                ) && chosen::<C, T, A>(
                    &old(self).params,
                    &stretch,
                    old(model),
                    final(model),
                    (*old(matcher), *final(matcher)),
                    old(self).references.last_insert_len as int,
                    final(self).commands@.skip(old(self).commands@.len() as int),
                ),
    {
        let ghost earlier = self.commands@;
        let ghost state = self.references;
        proof {
            lemma_accounted_positive(earlier);
        }
        let none: [Vec<u8>; 0] = [];
        assert(path::bytes_before(none@, 0) == 0);
        let stretch = Stretch {
            data: self.ringbuffer.buffer(),
            mask: self.ringbuffer.mask(),
            block_start: position,
            num_bytes: bytes,
            limit: self.params.max_backward_limit(),
            max_distance: self.params.dist.max_distance as usize,
            gap: 0,
            attached: &none,
            starting: self.references.dist_cache,
        };
        choose_commands(
            &stretch,
            self.backend,
            &self.params,
            model,
            matcher,
            prefix,
            &mut self.references,
            &mut self.commands,
        );
        proof {
            let made = self.commands@.skip(earlier.len() as int);
            assert(self.commands@ =~= earlier + made);
            lemma_accounted_append(earlier, made);
            let first = 0 - state.last_insert_len;
            retold::lemma_retold(&self.ringbuffer, &stretch, from, first, made);
            retold::lemma_joined(
                self.ringbuffer.history@,
                self.bounds(),
                self.last_flush_pos as int,
                self.saved_dist_cache@,
                earlier,
                made,
            );
            lemma_replayed_end(&stretch, first, made);
            if made.len() == 0 {
                assert(self.commands@ =~= earlier);
            } else {
                assert(self.commands@.last() == made.last());
            }
            assert(old(self).describes(&stretch, position as int, bytes as int));
        }
    }
}

impl HqEncoder {
    /// Nothing to do: no new input and no end.
    pub open spec fn idle(&self, is_last: bool) -> bool {
        self.input_pos == self.last_processed_pos && !is_last
    }

    /// The stream ends without ever having had input.
    pub open spec fn ends_empty(&self, is_last: bool) -> bool {
        self.input_pos == self.last_processed_pos && is_last && self.ringbuffer.cur_size == 0
    }

    /// The last command goes on into the new input for `grown` bytes, if it may.
    pub open spec fn grows(&self, grown: int) -> bool {
        if self.commands@.len() > 0 && self.references.last_insert_len == 0 && self.repeats_last(
            self.commands@.last(),
        ) {
            goes_on(
                self.buffer_of(),
                self.ringbuffer.mask,
                ringbuffer::wrapped_position(self.last_processed_pos as int),
                self.references.dist_cache@[0] as int,
                self.input_pos - self.last_processed_pos,
                grown,
            )
        } else {
            grown == 0
        }
    }

    /// The commands with the last one `grown` bytes longer.
    pub open spec fn grown_commands(&self, grown: int) -> Seq<Command> {
        if self.commands@.len() > 0 {
            let last = self.commands@.last();
            self.commands@.update(
                self.commands@.len() - 1,
                Command { copy_len: (last.copy_len + grown) as usize, ..last },
            )
        } else {
            self.commands@
        }
    }

    /// The last command grew, and commands that read back to the rest of the new
    /// input follow.
    pub open spec fn referenced<C: CostModel, T: TreeMatcher, A: PrefixMatcher>(
        &self,
        grown: int,
        stretch: &Stretch,
        model: &C,
        priced: &C,
        matchers: (T, T),
        after: &Self,
    ) -> bool {
        let count = self.commands@.len() as int;
        &&& self.grows(grown)
        &&& self.describes(
            stretch,
            ringbuffer::wrapped_position(self.last_processed_pos as int) + grown,
            self.input_pos - self.last_processed_pos - grown,
        )
        &&& count <= after.commands@.len()
        &&& after.commands@.take(count) == self.grown_commands(grown)
        &&& zopfli::written(
            stretch,
            self.references,
            after.references,
            after.commands@.skip(count),
        )
        &&& chosen::<C, T, A>(
            &self.params,
            stretch,
            model,
            priced,
            matchers,
            self.references.last_insert_len as int,
            after.commands@.skip(count),
        )
    }

    /// New input becomes commands, and nothing else changes.
    pub open spec fn takes_in<C: CostModel, T: TreeMatcher, A: PrefixMatcher, B: BlockEngine>(
        &self,
        model: &C,
        priced: &C,
        matchers: (T, T),
        engines: (B, B),
        after: &Self,
    ) -> bool {
        &&& *after == (HqEncoder {
            commands: after.commands,
            references: after.references,
            is_prepared: true,
            guidance: after.guidance,
            ..*self
        })
        &&& after.guidance@ matches Some(guidance) && guidance == (Guidance {
            prepared: !self.is_prepared,
            window: (self.buffer_of(), self.ringbuffer.mask),
            fresh: (
                ringbuffer::wrapped_position(self.last_processed_pos as int),
                self.input_pos - self.last_processed_pos,
            ),
            pending: (
                ringbuffer::wrapped_position(self.last_flush_pos as int),
                self.input_pos - self.last_flush_pos,
            ),
            context_mode: guidance.context_mode,
        }) && exchanged(engines.0, guidance.things(), engines.1)
        &&& exists|grown: int, stretch: Stretch| #[trigger]
            self.referenced::<C, T, A>(grown, &stretch, model, priced, matchers, after)
    }

    /// The literals still waiting become a command of their own.
    pub open spec fn gathered_commands(&self) -> Seq<Command> {
        if self.references.last_insert_len > 0 {
            self.commands@.push(
                Command {
                    insert_len: self.references.last_insert_len,
                    copy_len: 0,
                    len_code_delta: 0,
                    distance_code: 16,
                },
            )
        } else {
            self.commands@
        }
    }

    /// Everything pending is in commands.
    pub open spec fn gathers_into(&self, after: &Self) -> bool {
        &&& *after == (HqEncoder {
            commands: after.commands,
            references: after.references,
            last_processed_pos: self.input_pos,
            is_prepared: after.is_prepared,
            ..*self
        })
        &&& after.is_prepared == (self.is_prepared && !self.wraps())
        &&& after.commands@ == self.gathered_commands()
        &&& after.references == (ZopfliState {
            last_insert_len: 0,
            num_literals: (self.references.num_literals + self.references.last_insert_len) as usize,
            ..self.references
        })
    }

    /// Positions start over in the input that was not processed yet.
    pub open spec fn wraps(&self) -> bool {
        ringbuffer::wrapped_position(self.input_pos as int) < ringbuffer::wrapped_position(
            self.last_processed_pos as int,
        )
    }

    /// The pending meta-block is written, and its whole bytes are handed out.
    pub open spec fn closes_with<B: BlockEngine>(
        &self,
        is_last: bool,
        engines: (B, B),
        written: BrotliResult<Written>,
        after: &Self,
        result: BrotliResult<Vec<u8>>,
    ) -> bool {
        &&& self.comes_to::<B>(
            self.input_pos - self.last_flush_pos,
            is_last,
            match self.guidance@ {
                Some(guidance) => guidance.context_mode,
                None => 0,
            },
            after.verdict@,
            engines.0,
            engines.1,
            written,
        )
        &&& match written {
            Err(error) => result == Err::<Vec<u8>, _>(error),
            Ok(out) => {
                &&& result matches Ok(bytes) && bytes@ == out.storage@.take(
                    out.position as int / 8,
                )
                &&& after.settled(&out, is_last)
                &&& after.references.dist_cache@ == if out.stored {
                    self.saved_dist_cache@
                } else {
                    self.references.dist_cache@
                }
            },
        }
    }

    /// The pending meta-block, with every literal gathered, is written. Its commands
    /// read back to the whole of it.
    pub open spec fn completes<B: BlockEngine>(
        &self,
        is_last: bool,
        engines: (B, B),
        full: &Self,
        written: BrotliResult<Written>,
        after: &Self,
        result: BrotliResult<Vec<u8>>,
    ) -> bool {
        &&& self.gathers_into(full)
        &&& full.tells_to(full.input_pos as int)
        &&& full.closes_with::<B>(is_last, engines, written, after, result)
    }

    /// New input was taken in, and a meta-block was written if one was due.
    pub open spec fn advances<C: CostModel, T: TreeMatcher, A: PrefixMatcher, B: BlockEngine>(
        &self,
        is_last: bool,
        model: &C,
        priced: &C,
        matchers: (T, T),
        engines: (B, B, B),
        taken: &Self,
        after: &Self,
        result: BrotliResult<Vec<u8>>,
    ) -> bool {
        &&& (HqEncoder {
            is_last_block_emitted: self.is_last_block_emitted || is_last,
            ..*self
        }).takes_in::<C, T, A, B>(model, priced, matchers, (engines.0, engines.1), taken)
        &&& if taken.merges(is_last) {
            &&& engines.1 == engines.2
            &&& result matches Ok(bytes) && bytes@.len() == 0
            &&& *after == (HqEncoder {
                last_processed_pos: taken.input_pos,
                is_prepared: !taken.wraps(),
                ..*taken
            })
        } else {
            exists|full: HqEncoder, written: BrotliResult<Written>| #[trigger]
                taken.completes::<B>(
                    is_last,
                    (engines.1, engines.2),
                    &full,
                    written,
                    after,
                    result,
                )
        }
    }

    /// Input that was taken in, and a meta-block that was completed.
    proof fn lemma_advanced<C: CostModel, T: TreeMatcher, A: PrefixMatcher, B: BlockEngine>(
        &self,
        is_last: bool,
        model: &C,
        priced: &C,
        matchers: (T, T),
        engines: (B, B, B),
        states: (&Self, &Self, &Self),
        written: BrotliResult<Written>,
        after: &Self,
        result: BrotliResult<Vec<u8>>,
    )
        requires
            *states.0 == (HqEncoder {
                is_last_block_emitted: self.is_last_block_emitted || is_last,
                ..*self
            }),
            states.0.takes_in::<C, T, A, B>(
                model,
                priced,
                matchers,
                (engines.0, engines.1),
                states.1,
            ),
            !states.1.merges(is_last),
            states.1.completes::<B>(
                is_last,
                (engines.1, engines.2),
                states.2,
                written,
                after,
                result,
            ),
        ensures
            self.advances::<C, T, A, B>(
                is_last,
                model,
                priced,
                matchers,
                engines,
                states.1,
                after,
                result,
            ),
    {
    }

    /// Processes the accumulated input, emitting a meta-block if one is due.
    ///
    /// A second last block is refused, and so is a meta-block that ran past its
    /// buffer.
    #[verifier::rlimit(60)]
    pub fn encode_data<C: CostModel, T: TreeMatcher, A: PrefixMatcher, B: BlockEngine>(
        &mut self,
        is_last: bool,
        model: &mut C,
        matcher: &mut T,
        prefix: &mut A,
        engine: &mut B,
    ) -> (result: BrotliResult<Vec<u8>>)
        requires
            old(self).wf(),
        ensures
            final(self).same_stream(old(self)),
            old(self).idle(is_last) ==> result is Ok && result->Ok_0@.len() == 0 && *final(self)
                == *old(self),
            old(self).ends_empty(is_last) ==> result is Ok && result->Ok_0@ == old(self).closed()
                && final(self).finished && final(self).wf(),
            !old(self).idle(is_last) && !old(self).ends_empty(is_last)
                && old(self).is_last_block_emitted ==> result == Err::<Vec<u8>, _>(
                BrotliCompressError::BufferOverflow,
            ) && *final(self) == *old(self),
            !old(self).idle(is_last) && !old(self).ends_empty(is_last)
                && !old(self).is_last_block_emitted ==> exists|taken: HqEncoder, guided: B| #[trigger]
                old(self).advances::<C, T, A, B>(
                    is_last,
                    old(model),
                    final(model),
                    (*old(matcher), *final(matcher)),
                    (*old(engine), guided, *final(engine)),
                    &taken,
                    final(self),
                    result,
                ),
            result is Err ==> result->Err_0 == BrotliCompressError::BufferOverflow,
            result is Ok ==> {
                &&& final(self).wf()
                &&& final(self).last_processed_pos == final(self).input_pos
                &&& is_last ==> final(self).finished
                &&& !is_last ==> final(self).finished == old(self).finished || !final(self).finished
                &&& final(self).last_flush_pos == old(self).last_flush_pos
                    || final(self).last_flush_pos == final(self).input_pos
                &&& is_last ==> final(self).last_flush_pos == final(self).input_pos
                &&& final(self).last_flush_pos == old(self).last_flush_pos
                    && old(self).input_pos > old(self).last_processed_pos
                    ==> result->Ok_0@.len() == 0 && final(self).merges(is_last)
                &&& final(self).last_flush_pos != old(self).last_flush_pos
                    ==> final(self).commands@.len() == 0 && final(self).references.last_insert_len
                    == 0 && final(self).prev_byte == final(self).ringbuffer.history@[
                final(self).input_pos - 1]
            },
    {
        let delta: u64 = self.input_pos - self.last_processed_pos;
        if delta == 0 {
            if !is_last {
                return Ok(Vec::new());
            }
            if !self.ringbuffer.is_allocated() {
                return Ok(self.end_empty_stream());
            }
        }
        if self.is_last_block_emitted {
            return Err(BrotliCompressError::BufferOverflow);
        }
        if is_last {
            self.is_last_block_emitted = true;
        }
        let ghost ready = *self;
        let context_mode: u8 = self.process_input(model, matcher, prefix, engine);
        let ghost taken = *self;
        let ghost guided = *engine;
        let ghost priced = *model;
        let ghost matchers = (*old(matcher), *matcher);
        assert(ready.takes_in::<C, T, A, B>(
            old(model),
            &priced,
            matchers,
            (*old(engine), guided),
            &taken,
        ));
        proof {
            self.params.lemma_block_fits();
        }
        let pending: usize = (self.input_pos - self.last_flush_pos) as usize;
        if self.may_merge(is_last) {
            if self.update_last_processed_pos() {
                self.is_prepared = false;
            }
            let merged: BrotliResult<Vec<u8>> = Ok(Vec::new());
            assert(old(self).advances::<C, T, A, B>(
                is_last,
                old(model),
                &priced,
                matchers,
                (*old(engine), guided, *engine),
                &taken,
                self,
                merged,
            ));
            return merged;
        }
        let result: BrotliResult<Vec<u8>> = self.complete_meta_block(
            pending,
            is_last,
            context_mode,
            engine,
        );
        proof {
            let (full, written) = choose|full: HqEncoder, written: BrotliResult<Written>| #[trigger]
                taken.completes::<B>(is_last, (guided, *engine), &full, written, self, result);
            old(self).lemma_advanced::<C, T, A, B>(
                is_last,
                old(model),
                &priced,
                matchers,
                (*old(engine), guided, *engine),
                (&ready, &taken, &full),
                written,
                self,
                result,
            );
        }
        result
    }

    /// Gathers everything pending into commands, and writes them.
    fn complete_meta_block<B: BlockEngine>(
        &mut self,
        pending: usize,
        is_last: bool,
        context_mode: u8,
        engine: &mut B,
    ) -> (result: BrotliResult<Vec<u8>>)
        requires
            old(self).pending_ok(),
            pending == old(self).input_pos - old(self).last_flush_pos,
            pending <= 0x100_0000,
            old(self).accounts_to(old(self).input_pos as int),
            old(self).tells_to(old(self).input_pos as int),
            old(self).guidance@ matches Some(guidance) && guidance.context_mode == context_mode,
        ensures
            final(self).same_stream(old(self)),
            exists|full: HqEncoder, written: BrotliResult<Written>| #[trigger]
                old(self).completes::<B>(
                    is_last,
                    (*old(engine), *final(engine)),
                    &full,
                    written,
                    final(self),
                    result,
                ),
            result is Err ==> result->Err_0 == BrotliCompressError::BufferOverflow,
            result is Ok ==> {
                &&& final(self).wf()
                &&& final(self).last_flush_pos == final(self).input_pos
                &&& final(self).last_processed_pos == final(self).input_pos
                &&& final(self).commands@.len() == 0
                &&& final(self).references.last_insert_len == 0
                &&& final(self).finished == is_last
                &&& final(self).input_pos > 0 ==> final(self).prev_byte == final(self).ringbuffer.history@[final(self).input_pos - 1]
            },
    {
        self.close_commands();
        if self.update_last_processed_pos() {
            self.is_prepared = false;
        }
        let ghost full = *self;
        assert(old(self).gathers_into(&full));
        let result: BrotliResult<Vec<u8>> = self.finish_meta_block(
            pending,
            is_last,
            context_mode,
            engine,
        );
        proof {
            let written = choose|written: BrotliResult<Written>| #[trigger]
                full.closes_with::<B>(is_last, (*old(engine), *engine), written, self, result);
            assert(old(self).completes::<B>(
                is_last,
                (*old(engine), *engine),
                &full,
                written,
                self,
                result,
            ));
        }
        result
    }

    /// Turns the new input into commands, and returns how literal contexts of the
    /// pending meta-block are formed.
    #[verifier::rlimit(40)]
    fn process_input<C: CostModel, T: TreeMatcher, A: PrefixMatcher, B: BlockEngine>(
        &mut self,
        model: &mut C,
        matcher: &mut T,
        prefix: &mut A,
        engine: &mut B,
    ) -> (context_mode: u8)
        requires
            old(self).wf(),
            old(self).ringbuffer.cur_size > 0,
        ensures
            old(self).takes_in::<C, T, A, B>(
                old(model),
                final(model),
                (*old(matcher), *final(matcher)),
                (*old(engine), *final(engine)),
                final(self),
            ),
            final(self).guidance@ matches Some(guidance) && guidance.context_mode == context_mode,
            final(self).accounts_to(final(self).input_pos as int),
            final(self).tells_to(final(self).input_pos as int),
            final(self).ends_in_copy(),
            path::distances_ok(final(self).references.dist_cache@),
    {
        proof {
            self.params.lemma_block_fits();
            lemma_wrap_bound(self.last_processed_pos as int);
            lemma_wrap_bound(self.last_flush_pos as int);
            lemma_accounted_positive(self.commands@);
        }
        proof {
            self.lemma_place();
        }
        let mut position: usize = wrap_position(self.last_processed_pos) as usize;
        let mut bytes: usize = (self.input_pos - self.last_processed_pos) as usize;
        let pending: usize = (self.input_pos - self.last_flush_pos) as usize;
        let mask: usize = self.ringbuffer.mask();
        let (context_mode, Ghost(guidance)) = ask_guidance(
            engine,
            self.is_prepared,
            self.ringbuffer.buffer(),
            mask,
            (position, bytes),
            (wrap_position(self.last_flush_pos) as usize, pending),
        );
        self.guidance = Ghost(Some(guidance));
        self.is_prepared = true;
        let ghost mut from: int = self.last_processed_pos as int;
        let ghost mut grown: int = 0;
        if self.commands.len() > 0 && self.references.last_insert_len == 0 {
            let ghost held = self.commands@;
            let k: usize = self.extend_last_command(position, bytes);
            position += k;
            bytes -= k;
            proof {
                from = from + k;
                grown = k as int;
                assert(self.commands@.drop_last() =~= held.drop_last());
                assert(self.commands@.last().insert_len == held.last().insert_len);
                old(self).lemma_grown(grown, self.commands@);
                self.lemma_place_later(position - grown, from - grown, grown);
            }
        }
        let ghost ready = *self;
        self.create_references(position, bytes, Ghost(from), model, matcher, prefix);
        proof {
            let made = self.commands@.skip(ready.commands@.len() as int);
            let stretch = choose|stretch: Stretch| #[trigger]
                ready.describes(&stretch, position as int, bytes as int) && zopfli::written(
                    &stretch,
                    ready.references,
                    self.references,
                    made,
                ) && chosen::<C, T, A>(
                    &ready.params,
                    &stretch,
                    old(model),
                    model,
                    (*old(matcher), *matcher),
                    ready.references.last_insert_len as int,
                    made,
                );
            assert(ready.commands@ =~= old(self).grown_commands(grown));
            assert(old(self).referenced::<C, T, A>(
                grown,
                &stretch,
                old(model),
                model,
                (*old(matcher), *matcher),
                self,
            ));
        }
        context_mode
    }

    /// The window holds new input, and nothing else changes.
    pub open spec fn given(&self, input: Seq<u8>, after: &Self) -> bool {
        &&& *after == (HqEncoder {
            input_pos: after.input_pos,
            ringbuffer: after.ringbuffer,
            ..*self
        })
        &&& after.input_pos == self.input_pos + input.len()
        &&& after.ringbuffer.wf()
        &&& after.ringbuffer.history@ == self.ringbuffer.history@ + input
    }

    /// Compresses one input block and returns the bytes it completed.
    pub fn encode_block<C: CostModel, T: TreeMatcher, A: PrefixMatcher, B: BlockEngine>(
        &mut self,
        input: &[u8],
        is_last: bool,
        model: &mut C,
        matcher: &mut T,
        prefix: &mut A,
        engine: &mut B,
    ) -> (result: BrotliResult<Vec<u8>>)
        requires
            old(self).wf(),
            !old(self).finished,
            old(self).input_pos == old(self).last_processed_pos,
            input@.len() <= power2::pow2(old(self).params.lgblock as nat),
            old(self).input_pos + input@.len() <= MAX_STREAM_POSITION,
        ensures
            final(self).input_pos == old(self).input_pos + input@.len(),
            final(self).ringbuffer.history@ == old(self).ringbuffer.history@ + input@,
            input@.len() == 0 && !is_last ==> result is Ok && result->Ok_0@.len() == 0,
            input@.len() == 0 && is_last && old(self).ringbuffer.cur_size == 0 ==> result is Ok
                && result->Ok_0@ == old(self).closed(),
            input@.len() > 0 && old(self).is_last_block_emitted ==> result == Err::<Vec<u8>, _>(
                BrotliCompressError::BufferOverflow,
            ),
            (input@.len() > 0 || is_last && old(self).ringbuffer.cur_size > 0)
                && !old(self).is_last_block_emitted ==> exists|
                given: HqEncoder,
                taken: HqEncoder,
                guided: B,
            |
                #![trigger old(self).given(input@, &given), given.advances::<C, T, A, B>(is_last, old(model), final(model), (*old(matcher), *final(matcher)), (*old(engine), guided, *final(engine)), &taken, final(self), result)]
                old(self).given(input@, &given) && given.advances::<C, T, A, B>(
                    is_last,
                    old(model),
                    final(model),
                    (*old(matcher), *final(matcher)),
                    (*old(engine), guided, *final(engine)),
                    &taken,
                    final(self),
                    result,
                ),
            result is Err ==> result->Err_0 == BrotliCompressError::BufferOverflow,
            result is Ok ==> {
                &&& final(self).wf()
                &&& final(self).last_processed_pos == final(self).input_pos
                &&& final(self).finished == is_last
                &&& is_last ==> final(self).last_flush_pos == final(self).input_pos
            },
    {
        self.copy_input_to_ring_buffer(input);
        let ghost held = *self;
        assert(old(self).given(input@, &held));
        self.encode_data(is_last, model, matcher, prefix, engine)
    }

    /// Ends a stream that never had any input.
    fn end_empty_stream(&mut self) -> (bytes: Vec<u8>)
        requires
            old(self).wf(),
            old(self).input_pos == old(self).last_processed_pos,
            old(self).ringbuffer.cur_size == 0,
        ensures
            final(self).wf(),
            *final(self) == (HqEncoder { finished: true, ..*old(self) }),
            bytes@ == old(self).closed(),
    {
        let bytes: Vec<u8> = self.closing_bytes();
        self.finished = true;
        bytes
    }

    /// Gathers the literals still waiting into a command of their own.
    fn close_commands(&mut self)
        requires
            old(self).accounts_to(old(self).input_pos as int),
            old(self).tells_to(old(self).input_pos as int),
            old(self).last_flush_pos <= old(self).input_pos,
            old(self).input_pos - old(self).last_flush_pos <= 0x100_0000,
        ensures
            *final(self) == (HqEncoder {
                commands: final(self).commands,
                references: final(self).references,
                ..*old(self)
            }),
            final(self).accounts_to(final(self).input_pos as int),
            final(self).tells_to(final(self).input_pos as int),
            final(self).references == (ZopfliState {
                last_insert_len: 0,
                num_literals: (old(self).references.num_literals
                    + old(self).references.last_insert_len) as usize,
                ..old(self).references
            }),
            final(self).commands@ == old(self).gathered_commands(),
    {
        let waiting: usize = self.references.last_insert_len;
        if waiting > 0 {
            let ghost held = self.commands@;
            proof {
                lemma_accounted_positive(held);
            }
            self.commands.push(
                Command {
                    insert_len: waiting,
                    copy_len: 0,
                    len_code_delta: 0,
                    distance_code: 16,
                },
            );
            assert(self.commands@.drop_last() =~= held);
            self.references.num_literals = self.references.num_literals + waiting;
            self.references.last_insert_len = 0;
        }
    }

    /// Writes the pending meta-block and settles it.
    fn finish_meta_block<B: BlockEngine>(
        &mut self,
        pending: usize,
        is_last: bool,
        context_mode: u8,
        engine: &mut B,
    ) -> (result: BrotliResult<Vec<u8>>)
        requires
            old(self).params.wf(),
            pending == old(self).input_pos - old(self).last_flush_pos,
            pending <= 0x100_0000,
            old(self).last_processed_pos == old(self).input_pos,
            old(self).references.last_insert_len == 0,
            old(self).flushable(),
            old(self).guidance@ matches Some(guidance) && guidance.context_mode == context_mode,
        ensures
            final(self).same_stream(old(self)),
            exists|written: BrotliResult<Written>| #[trigger]
                old(self).closes_with::<B>(
                    is_last,
                    (*old(engine), *final(engine)),
                    written,
                    final(self),
                    result,
                ),
            result is Err ==> result->Err_0 == BrotliCompressError::BufferOverflow,
            result is Ok ==> {
                &&& final(self).wf()
                &&& final(self).last_flush_pos == final(self).input_pos
                &&& final(self).last_processed_pos == final(self).input_pos
                &&& final(self).commands@.len() == 0
                &&& final(self).references.last_insert_len == 0
                &&& final(self).finished == is_last
                &&& final(self).input_pos > 0 ==> final(self).prev_byte == final(self).ringbuffer.history@[final(self).input_pos - 1]
            },
    {
        let written: BrotliResult<Written> = self.write_meta_block(
            pending,
            is_last,
            context_mode,
            engine,
        );
        let ghost outcome = written;
        let result: BrotliResult<Vec<u8>> = match written {
            Err(error) => Err(error),
            Ok(out) => Ok(self.settle(out, is_last)),
        };
        assert(old(self).closes_with::<B>(
            is_last,
            (*old(engine), *engine),
            outcome,
            self,
            result,
        ));
        result
    }
}

impl HqEncoder {
    /// The wrapped position of the unprocessed input stands for it.
    proof fn lemma_place(&self)
        requires
            self.wf(),
        ensures
            self.stands_for(
                ringbuffer::wrapped_position(self.last_processed_pos as int),
                self.last_processed_pos as int,
            ),
            self.bounds().limit <= 0x3FFF_FFF0,
    {
        let lgwin = self.params.lgwin as nat;
        let lgblock = self.params.lgblock as nat;
        let most = if lgwin > lgblock {
            lgwin
        } else {
            lgblock
        };
        power2::lemma2_to64();
        power2::lemma_pow2_unfold((most + 1) as nat);
        if lgwin < most {
            power2::lemma_pow2_strictly_increases(lgwin, most);
        }
        if lgblock < most {
            power2::lemma_pow2_strictly_increases(lgblock, most);
        }
        if lgwin < 30 {
            power2::lemma_pow2_strictly_increases(lgwin, 30);
        }
        retold::lemma_wrapped(
            self.last_processed_pos as int,
            self.ringbuffer.size as int,
            self.ringbuffer.bits@,
        );
        lemma_wrap_bound(self.last_processed_pos as int);
    }

    /// A place a little later stands for the input a little later.
    proof fn lemma_place_later(&self, position: int, from: int, step: int)
        requires
            self.ringbuffer.wf(),
            self.stands_for(position, from),
            0 <= step <= self.input_pos - from,
        ensures
            self.stands_for(position + step, from + step),
    {
        let size = self.ringbuffer.size as int;
        div_mod::lemma_mod_equivalence(position, from, size);
        div_mod::lemma_mod_equivalence(position + step, from + step, size);
    }

    /// The last command, grown into the new input, tells that as well.
    proof fn lemma_grown(&self, grown: int, commands: Seq<Command>)
        requires
            self.wf(),
            self.ringbuffer.cur_size > 0,
            self.commands@.len() > 0,
            self.references.last_insert_len == 0,
            self.grows(grown),
            0 <= grown <= self.input_pos - self.last_processed_pos,
            commands.len() == self.commands@.len(),
            commands.drop_last() == self.commands@.drop_last(),
            commands.last() == (Command {
                copy_len: commands.last().copy_len,
                ..self.commands@.last()
            }),
            commands.last().copy_len == self.commands@.last().copy_len + grown,
        ensures
            retold::faithful(
                self.ringbuffer.history@,
                self.bounds(),
                self.last_flush_pos as int,
                self.saved_dist_cache@,
                commands,
            ),
            retold::retold(
                self.bounds(),
                self.last_flush_pos as int,
                self.saved_dist_cache@,
                commands,
            ) == (self.last_processed_pos + grown, self.references.dist_cache@),
    {
        let position = ringbuffer::wrapped_position(self.last_processed_pos as int);
        let last = self.references.dist_cache@[0] as int;
        self.lemma_place();
        if grown > 0 {
            lemma_wrap_bound(self.last_processed_pos as int);
            self.params.lemma_block_fits();
            lemma_repeats_told(
                &self.ringbuffer,
                position,
                self.last_processed_pos as int,
                last,
                grown,
            );
        }
        retold::lemma_last_goes_on(
            self.ringbuffer.history@,
            self.bounds(),
            self.last_flush_pos as int,
            self.saved_dist_cache@,
            self.commands@,
            commands,
            grown,
        );
    }
}

/// The commands of a meta-block, once every literal is gathered, read back to the
/// input: a decoder that had it up to the meta-block has it whole.
pub proof fn lemma_meta_block_reads_back(encoder: &HqEncoder)
    requires
        encoder.ringbuffer.history@.len() == encoder.input_pos,
        encoder.references.last_insert_len == 0,
        encoder.tells_to(encoder.input_pos as int),
    ensures
        retold::rebuilt(
            encoder.ringbuffer.history@,
            encoder.bounds(),
            encoder.last_flush_pos as int,
            encoder.saved_dist_cache@,
            encoder.commands@,
        ) == encoder.ringbuffer.history@,
{
    let input = encoder.ringbuffer.history@;
    retold::lemma_read_back(
        input,
        encoder.bounds(),
        encoder.last_flush_pos as int,
        encoder.saved_dist_cache@,
        encoder.commands@,
    );
    assert(input.take(input.len() as int) =~= input);
}

/// Bytes of the window that repeat are bytes of the input that do.
proof fn lemma_repeats_told(window: &RingBuffer, position: int, from: int, distance: int, count: int)
    requires
        window.wf(),
        window.data@.len() >= ringbuffer::HEAD_ROOM,
        1 <= distance <= from,
        distance <= position,
        position % (window.size as int) == from % (window.size as int),
        from + count <= window.history@.len(),
        window.history@.len() - window.size <= from - distance,
        position + count <= usize::MAX,
        forall|i: int|
            0 <= i < count ==> #[trigger] repeats_at(
                window.data@.skip(ringbuffer::HEAD_ROOM as int),
                window.mask,
                position + i,
                distance,
            ),
    ensures
        retold::copies(window.history@, from, count, distance),
{
    let input = window.history@;
    let size = window.size as int;
    assert forall|i: int| from <= i < from + count implies #[trigger] input[i] == input[i
        - distance] by {
        let j = i - from;
        assert(repeats_at(
            window.data@.skip(ringbuffer::HEAD_ROOM as int),
            window.mask,
            position + j,
            distance,
        ));
        math::lemma_mask_is_mod((position + j) as usize, window.size, window.bits@);
        math::lemma_mask_is_mod((position + j - distance) as usize, window.size, window.bits@);
        div_mod::lemma_mod_equivalence(position, from, size);
        div_mod::lemma_mod_equivalence(position + j, i, size);
        div_mod::lemma_mod_equivalence(position + j - distance, i - distance, size);
        retold::lemma_window(window, i, 0);
        retold::lemma_window(window, i - distance, 0);
    }
}

/// Commands lead as far as they account for.
proof fn lemma_replayed_end(stretch: &Stretch, first: int, made: Seq<Command>)
    ensures
        stretch.replayed(first, made).0 == first + backward_references::accounted(made),
    decreases made.len(),
{
    if made.len() > 0 {
        lemma_replayed_end(stretch, first, made.drop_last());
    }
}

/// Wrapped positions leave room above them.
proof fn lemma_wrap_bound(position: int)
    requires
        0 <= position,
    ensures
        0 <= ringbuffer::wrapped_position(position) < 0xC000_0000,
        position < 0x4000_0000 ==> ringbuffer::wrapped_position(position) == position,
        position >= 0x4000_0000 ==> ringbuffer::wrapped_position(position) >= 0x4000_0000,
{
}

/// The last command's share of what a list accounts for.
proof fn lemma_last_accounted(commands: Seq<Command>)
    requires
        commands.len() > 0,
    ensures
        backward_references::accounted(commands) >= commands.last().insert_len
            + commands.last().copy_len,
        backward_references::inserted(commands) >= 0,
{
    lemma_accounted_positive(commands.drop_last());
    lemma_accounted_positive(commands);
}

/// Counts of bytes are not negative, and no more are inserted than accounted for.
proof fn lemma_accounted_positive(commands: Seq<Command>)
    ensures
        0 <= backward_references::inserted(commands) <= backward_references::accounted(commands),
    decreases commands.len(),
{
    if commands.len() > 0 {
        lemma_accounted_positive(commands.drop_last());
    }
}

/// Lists account for what their parts do.
proof fn lemma_accounted_append(left: Seq<Command>, right: Seq<Command>)
    ensures
        backward_references::accounted(left + right) == backward_references::accounted(left)
            + backward_references::accounted(right),
        backward_references::inserted(left + right) == backward_references::inserted(left)
            + backward_references::inserted(right),
    decreases right.len(),
{
    if right.len() == 0 {
        assert(left + right =~= left);
    } else {
        lemma_accounted_append(left, right.drop_last());
        assert((left + right).drop_last() =~= left + right.drop_last());
    }
}

/// The bytes that end a stream with nothing pending read back as the carried bits and the
/// end.
pub proof fn lemma_closing_reads_back(encoder: &HqEncoder)
    requires
        encoder.last_bytes_bits <= 14,
        encoder.last_bytes < power2::pow2(encoder.last_bytes_bits as nat),
    ensures
        reader::content_from(encoder.closed(), encoder.last_bytes_bits as int) == Some(
            Seq::<u8>::empty(),
        ),
        reader::number_at(encoder.closed(), 0, encoder.last_bytes_bits as int)
            == encoder.last_bytes,
{
    let held: u32 = encoder.last_bytes as u32;
    let count: u32 = encoder.last_bytes_bits;
    let value: u32 = encoder.ended();
    let made = encoder.closed();
    power2::lemma2_to64();
    vstd::bits::lemma_u32_pow2_no_overflow(count as nat);
    vstd::bits::lemma_u32_shl_is_mul(1, count);
    assert(held | (3u32 << count) == held + 3 * (1u32 << count) && (1u32 << count) <= 0x4000)
        by (bit_vector)
        requires
            count <= 14,
            held < 1u32 << count,
    ;
    if count < 6 {
        power2::lemma_pow2_strictly_increases(count as nat, 6);
    }
    reader::lemma_number_byte(made, 0);
    if count > 6 {
        reader::lemma_number_byte(made, 1);
        reader::lemma_number_split(made, 0, 8, 8);
        assert(value as int == value as int % 256 + 256 * (value as int / 256));
        assert(value / 256 < 256);
    }
    reader::lemma_two_bits_end(made, held as int, count as int);
}

/// A stream that is its window and one verbatim meta-block reads back: a reader that goes
/// by the format gets the window and the bytes.
pub proof fn lemma_stored_stream_reads_back(
    encoder: &HqEncoder,
    out: &Written,
    bytes: int,
    window: int,
)
    requires
        encoder.verbatim_written(out, bytes, true),
        1 <= bytes <= header::MAX_META_BLOCK,
        encoder.last_bytes_bits <= 14,
        reader::window_at(encoder.carried_storage(bytes), 0) == Some(
            (window, encoder.last_bytes_bits as int),
        ),
        reader::clean(encoder.carried_storage(bytes), encoder.last_bytes_bits as int),
    ensures
        reader::content_of(out.storage@.take(out.position as int / 8)) == Some(
            (
                window,
                verbatim(
                    encoder.buffer_of(),
                    encoder.ringbuffer.mask,
                    ringbuffer::wrapped_position(encoder.last_flush_pos as int),
                    bytes,
                ),
            ),
        ),
{
    let data = verbatim(
        encoder.buffer_of(),
        encoder.ringbuffer.mask,
        ringbuffer::wrapped_position(encoder.last_flush_pos as int),
        bytes,
    );
    let s = encoder.carried_storage(bytes);
    let start = verbatim_start(encoder.last_bytes_bits as int, bytes);
    let made = header::with_verbatim(s, encoder.last_bytes_bits as int, data);
    header::lemma_stored_stream_reads_back(s, window, encoder.last_bytes_bits as int, data);
    let whole = out.storage@.take(out.position as int / 8);
    assert(whole.take(start + bytes) =~= out.storage@.take(start + bytes));
    assert(whole =~= made + seq![3u8]);
}

} // verus!
