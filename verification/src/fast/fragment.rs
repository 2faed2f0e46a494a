//! A fragment from its bytes to its bits.
use vstd::arithmetic::power2;
use vstd::prelude::*;

use crate::backend::Backend;
use crate::config::{BrotliCompressError, BrotliResult};
use crate::fast::encoder::{FastEncoder, FastQuality, Matter, Writing};
use crate::fast::header;
use crate::fast::header::{finish_fragment, MAX_META_BLOCK};
use crate::fast::q0;
use crate::fast::q0::{
    compress_fragment_impl, Answer, Ask, BlockCosts, Fragment, OnePass, TableBits, Token,
};
use crate::math;
use crate::shared::bits;
use crate::shared::bits::BitWriter;
use crate::shared::reader;

verus! {

/// Writes a fragment's commands with prefix codes.
///
/// A kind of coder says nothing but what it can make.
pub trait FragmentCoder: BlockCosts {
    /// A coder of this kind can write a fragment so.
    open spec fn writes(writing: Writing) -> bool {
        arbitrary()
    }

    /// Writes the tokens of a fragment behind the bits `storage` holds up to
    /// `position`, and returns the storage and where the bits end.
    fn write_tokens(&mut self, data: &[u8], tokens: &[Token], storage: Vec<u8>, position: usize) -> (made: (
        Vec<u8>,
        usize,
    ))
        ensures
            Self::writes(
                (Writing {
                    data: data@,
                    matter: Matter::Tokens(tokens@),
                    storage: storage@,
                    start: position as int,
                    made: made.0@,
                    end: made.1 as int,
                }),
            ),
    ;

    /// Writes a fragment in two passes; `table` is zeroed.
    fn write_two_pass(&mut self, data: &[u8], table: &mut Vec<i32>, storage: Vec<u8>, position: usize) -> (made: (
        Vec<u8>,
        usize,
    ))
        ensures
            Self::writes(
                (Writing {
                    data: data@,
                    matter: Matter::TwoPass(old(table)@),
                    storage: storage@,
                    start: position as int,
                    made: made.0@,
                    end: made.1 as int,
                }),
            ),
    ;
}

/// A coder that gives every fragment up: what it claims is longer than the bytes, so
/// these are stored as they are.
pub struct GiveUp;

/// Where a coder that gives up claims its bits end: past the bytes and their header.
pub open spec fn given_up(start: int, len: int) -> int {
    if start + 8 * len + 32 > usize::MAX {
        usize::MAX as int
    } else {
        start + 8 * len + 32
    }
}

impl GiveUp {
    /// Returns where the bits are claimed to end.
    fn claim(position: usize, len: usize) -> (end: usize)
        ensures
            end == given_up(position as int, len as int),
    {
        match len.checked_mul(8) {
            None => usize::MAX,
            Some(bits) => position.saturating_add(bits).saturating_add(32),
        }
    }
}

impl BlockCosts for GiveUp {
    open spec fn says(ask: Ask) -> bool {
        match ask {
            Ask::Open(_, ratio) => ratio == 1000,
            Ask::Merges(_, merge) => !merge,
        }
    }

    fn open(&mut self, block: &[u8]) -> usize {
        1000
    }

    fn merges(&mut self, block: &[u8]) -> bool {
        false
    }
}

impl FragmentCoder for GiveUp {
    open spec fn writes(writing: Writing) -> bool {
        &&& writing.made == writing.storage
        &&& writing.end == given_up(writing.start, writing.data.len() as int)
    }

    fn write_tokens(&mut self, data: &[u8], tokens: &[Token], storage: Vec<u8>, position: usize) -> (
        Vec<u8>,
        usize,
    ) {
        (storage, Self::claim(position, data.len()))
    }

    fn write_two_pass(&mut self, data: &[u8], table: &mut Vec<i32>, storage: Vec<u8>, position: usize) -> (
        Vec<u8>,
        usize,
    ) {
        (storage, Self::claim(position, data.len()))
    }
}

/// What a fragment's storage holds before anything is written.
pub open spec fn seeded(carried: u16, len: int) -> Seq<u8> {
    Seq::new(len as nat, |i: int| 0u8).update(0, carried as u8)
}

/// What becomes of the bits a coder made from `start` to `end`: a fragment that came
/// out too long is replaced by its bytes, and the stream is closed after the last.
pub open spec fn finished_as(
    start: int,
    input: Seq<u8>,
    is_last: bool,
    made: Seq<u8>,
    end: int,
    out: Seq<u8>,
) -> bool {
    &&& start <= end
    &&& if input.len() > 0 && header::too_long(end - start, input.len() as int) {
        out == header::with_verbatim(bits::rewound(made, start), start, input) + if is_last {
            seq![3u8]
        } else {
            Seq::empty()
        }
    } else if is_last {
        let closed = header::closed(made, end);
        let whole = header::aligned(end + 2) / 8;
        whole <= closed.len() && out == closed.take(whole)
    } else {
        end / 8 <= made.len() && out == made.take(end / 8)
    }
}

/// How many whole bytes become of the bits a coder made from `start` to `end`.
pub open spec fn whole_bytes(start: int, len: int, is_last: bool, end: int) -> int {
    let body = if len > 0 && header::too_long(end - start, len) {
        header::aligned(start + header::header_bits(len)) + 8 * len
    } else {
        end
    };
    if is_last {
        header::aligned(body + 2) / 8
    } else {
        body / 8
    }
}

/// The bits carried over, and how many: those of the last, partial byte, unless the
/// fragment was stored or ends the stream.
pub open spec fn carried_over(start: int, len: int, is_last: bool, made: Seq<u8>, end: int) -> (u16, int) {
    if is_last || header::too_long(end - start, len) {
        (0, 0)
    } else if end % 8 == 0 || end / 8 >= made.len() {
        (0, end % 8)
    } else {
        (made[end / 8] as u16, end % 8)
    }
}

/// The tokens are what the one-pass rules make of a fragment, with a cleared table
/// and by what the costs answered.
pub open spec fn one_pass_of<F: FragmentCoder>(input: Seq<u8>, tokens: Seq<Token>) -> bool {
    exists|fragment: Fragment, ratio: usize, answers: Seq<Answer>, work: OnePass| #[trigger]
        fragment.encoded(cleared(fragment.bits as nat), ratio, answers, work@, work.asked@)
            && fragment.data@ == input && !fragment.independent && q0::width_for(
            input.len() as int,
            fragment.bits as int,
        ) && work.tokens@ == tokens && q0::heard::<F>(work.asked@)
}

/// A cleared table.
pub open spec fn cleared(bits: nat) -> Seq<i32> {
    Seq::new(power2::pow2(bits), |i: int| 0i32)
}

/// The matter is the whole fragment: tokens that read back give its bytes, or the
/// fragment itself with a cleared table.
pub open spec fn matter_of<F: FragmentCoder>(quality: FastQuality, input: Seq<u8>, matter: Matter) -> bool {
    match (quality, matter) {
        (FastQuality::Q0, Matter::Tokens(tokens)) => {
            &&& q0::tokens_hold(input, tokens)
            &&& q0::covered(tokens) == input.len()
            &&& q0::settled(tokens)
            &&& one_pass_of::<F>(input, tokens)
        },
        (FastQuality::Q1, Matter::TwoPass(table)) => {
            &&& quality.entries_for(input.len() as int, table.len() as int)
            &&& forall|i: int| 0 <= i < table.len() ==> #[trigger] table[i] == 0
        },
        _ => false,
    }
}

/// What a coder made can be taken: its bits end inside its storage, with room to
/// close the stream or to store the fragment, and nothing stands past them.
pub open spec fn in_order(writing: Writing, is_last: bool) -> bool {
    let len = writing.data.len() as int;
    &&& writing.start <= writing.end <= usize::MAX - 8 * len - 256
    &&& if header::too_long(writing.end - writing.start, len) {
        writing.start / 8 + len + 24 <= writing.made.len()
    } else {
        &&& writing.end / 8 + 16 <= writing.made.len()
        &&& is_last || writing.made[writing.end / 8] < power2::pow2((writing.end % 8) as nat)
    }
}

impl FastEncoder {
    /// The coder was asked for the fragment behind the carried bits, and what it
    /// made became these bytes.
    pub open spec fn leads_to<F: FragmentCoder>(
        &self,
        input: Seq<u8>,
        is_last: bool,
        writing: Writing,
        out: Seq<u8>,
    ) -> bool {
        &&& self.asks_for::<F>(input, writing)
        &&& finished_as(writing.start, input, is_last, writing.made, writing.end, out)
        &&& out.len() == whole_bytes(writing.start, input.len() as int, is_last, writing.end)
    }

    /// The encoder carries on what a fragment leaves behind.
    pub open spec fn carries(&self, input: Seq<u8>, is_last: bool, writing: Writing) -> bool {
        (self.last_bytes, self.last_bytes_bits as int) == carried_over(
            writing.start,
            input.len() as int,
            is_last,
            writing.made,
            writing.end,
        )
    }

    /// The coder was asked for the fragment behind the carried bits.
    pub open spec fn asks_for<F: FragmentCoder>(&self, input: Seq<u8>, writing: Writing) -> bool {
        &&& writing.data == input
        &&& matter_of::<F>(self.quality, input, writing.matter)
        &&& writing.storage == seeded(self.last_bytes, 2 * (input.len() as int) + 511)
        &&& writing.start == self.last_bytes_bits
        &&& F::writes(writing)
    }

    /// Has tokens written, and notes it.
    fn ask_for_tokens<F: FragmentCoder>(
        &mut self,
        coder: &mut F,
        data: &[u8],
        tokens: &[Token],
        storage: Vec<u8>,
        position: usize,
    ) -> (made: (Vec<u8>, usize))
        ensures
            *final(self) == (FastEncoder { writing: final(self).writing, ..*old(self) }),
            final(self).writing@ == Some(
                Writing {
                    data: data@,
                    matter: Matter::Tokens(tokens@),
                    storage: storage@,
                    start: position as int,
                    made: made.0@,
                    end: made.1 as int,
                },
            ),
            F::writes(final(self).writing@->0),
    {
        let ghost before = storage@;
        let made = coder.write_tokens(data, tokens, storage, position);
        self.writing = Ghost(
            Some(
                Writing {
                    data: data@,
                    matter: Matter::Tokens(tokens@),
                    storage: before,
                    start: position as int,
                    made: made.0@,
                    end: made.1 as int,
                },
            ),
        );
        made
    }

    /// Has a fragment written in two passes, and notes it.
    fn ask_for_two_passes<F: FragmentCoder>(
        &mut self,
        coder: &mut F,
        data: &[u8],
        table: &mut Vec<i32>,
        storage: Vec<u8>,
        position: usize,
    ) -> (made: (Vec<u8>, usize))
        ensures
            *final(self) == (FastEncoder { writing: final(self).writing, ..*old(self) }),
            final(self).writing@ == Some(
                Writing {
                    data: data@,
                    matter: Matter::TwoPass(old(table)@),
                    storage: storage@,
                    start: position as int,
                    made: made.0@,
                    end: made.1 as int,
                },
            ),
            F::writes(final(self).writing@->0),
    {
        let ghost before = storage@;
        let ghost cleared = table@;
        let made = coder.write_two_pass(data, table, storage, position);
        self.writing = Ghost(
            Some(
                Writing {
                    data: data@,
                    matter: Matter::TwoPass(cleared),
                    storage: before,
                    start: position as int,
                    made: made.0@,
                    end: made.1 as int,
                },
            ),
        );
        made
    }

    /// Finds a fragment's commands and has them written behind the carried bits.
    fn encode_fragment<F: FragmentCoder>(
        &mut self,
        backend: Backend,
        input: &[u8],
        coder: &mut F,
        storage: Vec<u8>,
        position: usize,
    ) -> (made: (Vec<u8>, usize))
        requires
            1 <= input@.len() <= MAX_META_BLOCK,
        ensures
            *final(self) == (FastEncoder {
                table: final(self).table,
                writing: final(self).writing,
                ..*old(self)
            }),
            final(self).writing@ matches Some(writing) && {
                &&& writing.data == input@
                &&& matter_of::<F>(old(self).quality, input@, writing.matter)
                &&& writing.storage == storage@
                &&& writing.start == position
                &&& writing.made == made.0@
                &&& writing.end == made.1
                &&& F::writes(writing)
            },
    {
        let entries: usize = self.prepare_table(input.len());
        let mut table: Vec<i32> = Vec::new();
        std::mem::swap(&mut table, &mut self.table);
        table.truncate(entries);
        match self.quality {
            FastQuality::Q0 => {
                let bits = TableBits::for_input(input.len());
                proof {
                    power2::lemma2_to64();
                }
                let fragment = Fragment {
                    data: input,
                    bits: bits.bits(),
                    independent: false,
                    backend,
                };
                let ghost before = table@;
                let work = compress_fragment_impl(&fragment, coder, table);
                proof {
                    assert(before =~= cleared(fragment.bits as nat));
                    let (ratio, answers) = choose|ratio: usize, answers: Seq<Answer>| #[trigger]
                        fragment.encoded(before, ratio, answers, work@, work.asked@);
                    assert(fragment.encoded(
                        cleared(fragment.bits as nat),
                        ratio,
                        answers,
                        work@,
                        work.asked@,
                    ));
                }
                let made = self.ask_for_tokens(
                    coder,
                    input,
                    work.tokens.as_slice(),
                    storage,
                    position,
                );
                self.table = work.table;
                made
            },
            FastQuality::Q1 => {
                let made = self.ask_for_two_passes(coder, input, &mut table, storage, position);
                self.table = table;
                made
            },
        }
    }

    /// Encodes a fragment, and returns its whole bytes; the bits of the last,
    /// partial one are carried.
    ///
    /// Storage that is too small is reported, and so are bits left past the end.
    #[verifier::rlimit(60)]
    pub fn encode_block<F: FragmentCoder>(
        &mut self,
        backend: Backend,
        input: &[u8],
        is_last: bool,
        coder: &mut F,
    ) -> (result: BrotliResult<Vec<u8>>)
        requires
            old(self).wf(),
            input@.len() <= MAX_META_BLOCK,
            input@.len() > 0 || is_last,
        ensures
            final(self).wf(),
            final(self).quality == old(self).quality,
            final(self).block_size_limit == old(self).block_size_limit,
            input@.len() == 0 ==> result is Ok && result->Ok_0@ == header::closed(
                seeded(old(self).last_bytes, 511),
                old(self).last_bytes_bits as int,
            ).take(header::aligned(old(self).last_bytes_bits + 2) / 8) && final(self).last_bytes == 0
                && final(self).last_bytes_bits == 0,
            input@.len() > 0 ==> {
                &&& final(self).writing@ matches Some(writing) && old(self).asks_for::<F>(input@, writing)
                    && (result is Ok ==> old(self).leads_to::<F>(
                    input@,
                    is_last,
                    writing,
                    result->Ok_0@,
                ) && final(self).carries(input@, is_last, writing)) && (in_order(writing, is_last)
                    ==> result is Ok)
            },
            result is Ok ==> final(self).finished == is_last,
            result matches Err(error) ==> error == BrotliCompressError::BufferOverflow && *final(self)
                == (FastEncoder {
                table: final(self).table,
                writing: final(self).writing,
                ..*old(self)
            }),
    {
        let reserve: usize = match Self::fragment_reserve(input.len()) {
            Err(error) => return Err(error),
            Ok(reserve) => reserve,
        };
        let mut storage: Vec<u8> = vec![0u8; reserve];
        let start: usize = self.seed_storage(storage.as_mut_slice());
        assert(storage@ =~= seeded(self.last_bytes, reserve as int));
        let mut end: usize = start;
        if input.len() > 0 {
            let (made, position) = self.encode_fragment(backend, input, coder, storage, start);
            storage = made;
            end = position;
        }
        let ghost made = storage@;
        let slack: usize = 8 * input.len() + 256;
        if end < start || end > usize::MAX - slack {
            return Err(BrotliCompressError::BufferOverflow);
        }
        let mut w = BitWriter::new(storage.as_mut_slice(), end);
        let rewritten: bool = finish_fragment(input, is_last, start, &mut w);
        let position: usize = w.position();
        let whole: usize = position / 8;
        let short: bool = w.overflowed();
        let partial: u8 = if position % 8 == 0 || whole >= storage.len() {
            0
        } else {
            storage[whole]
        };
        proof {
            power2::lemma2_to64();
            math::lemma_one_shl((position % 8) as usize);
        }
        if short || whole > storage.len() || partial as usize >= 1usize << (position % 8) {
            return Err(BrotliCompressError::BufferOverflow);
        }
        match self.settle_fragment(position, partial, false, is_last) {
            Err(error) => return Err(error),
            Ok(_) => {},
        }
        let ghost finished = storage@;
        storage.truncate(whole);
        proof {
            assert(storage@ =~= finished.take(whole as int));
        }
        Ok(storage)
    }

    /// Encodes a fragment into `dst`, which has room for any fragment of its length,
    /// and returns how many bytes are whole.
    pub fn encode_block_into<F: FragmentCoder>(
        &mut self,
        backend: Backend,
        input: &[u8],
        is_last: bool,
        dst: &mut [u8],
        coder: &mut F,
    ) -> (result: BrotliResult<usize>)
        requires
            old(self).wf(),
            input@.len() <= MAX_META_BLOCK,
            input@.len() > 0 || is_last,
        ensures
            final(self).wf(),
            final(dst)@.len() == old(dst)@.len(),
            old(dst)@.len() < 2 * input@.len() + 511 ==> result == Err::<usize, _>(
                BrotliCompressError::OutputTooSmall,
            ) && *final(self) == *old(self) && final(dst)@ == old(dst)@,
            old(dst)@.len() >= 2 * input@.len() + 511 ==> {
                &&& input@.len() == 0 ==> result is Ok
                &&& input@.len() > 0 ==> {
                    &&& final(self).writing@ matches Some(writing)
                    &&& old(self).asks_for::<F>(input@, writing)
                    &&& in_order(writing, is_last) && whole_bytes(
                        writing.start,
                        input@.len() as int,
                        is_last,
                        writing.end,
                    ) <= old(dst)@.len() ==> result is Ok
                }
            },
            final(self).quality == old(self).quality,
            final(self).block_size_limit == old(self).block_size_limit,
            result is Err ==> *final(self) == (FastEncoder {
                table: final(self).table,
                writing: final(self).writing,
                ..*old(self)
            }),
            result is Ok ==> {
                &&& result->Ok_0 <= final(dst)@.len()
                &&& final(self).finished == is_last
                &&& input@.len() > 0 ==> (final(self).writing@ matches Some(writing) && old(self).leads_to::<F>(input@, is_last, writing, final(dst)@.take(result->Ok_0 as int)) && final(self).carries(input@, is_last, writing))
                &&& input@.len() == 0 ==> final(self).last_bytes == 0 && final(self).last_bytes_bits
                    == 0
                &&& input@.len() == 0 ==> final(dst)@.take(result->Ok_0 as int) == header::closed(
                    seeded(old(self).last_bytes, 511),
                    old(self).last_bytes_bits as int,
                ).take(header::aligned(old(self).last_bytes_bits + 2) / 8)
            },
            result matches Err(error) ==> (old(dst)@.len() >= 2 * input@.len() + 511 ==> error
                == BrotliCompressError::BufferOverflow),
    {
        let reserve: usize = match Self::fragment_reserve(input.len()) {
            Err(error) => return Err(error),
            Ok(reserve) => reserve,
        };
        if dst.len() < reserve {
            return Err(BrotliCompressError::OutputTooSmall);
        }
        let carried: (u16, u32, bool) = (self.last_bytes, self.last_bytes_bits, self.finished);
        match self.encode_block(backend, input, is_last, coder) {
            Err(error) => Err(error),
            Ok(bytes) => {
                if bytes.len() > dst.len() {
                    // The fragment is given back, as if it had not been encoded.
                    self.last_bytes = carried.0;
                    self.last_bytes_bits = carried.1;
                    self.finished = carried.2;
                    return Err(BrotliCompressError::BufferOverflow);
                }
                let size: usize = dst.len();
                let count: usize = bytes.len();
                let mut k: usize = 0;
                while k < count
                    invariant
                        k <= count,
                        count == bytes@.len(),
                        count <= size,
                        size == dst@.len(),
                        size == old(dst)@.len(),
                        forall|i: int| 0 <= i < k ==> #[trigger] dst@[i] == bytes@[i],
                    decreases count - k,
                {
                    dst[k] = bytes[k];
                    k += 1;
                }
                assert(dst@.take(count as int) =~= bytes@);
                Ok(count)
            },
        }
    }
}

/// A fragment that is stored reads back: behind the bits that were carried a reader finds
/// its bytes, and then whatever the stream goes on with, or the end after the last.
pub proof fn lemma_stored_fragment_reads_back(
    start: int,
    input: Seq<u8>,
    is_last: bool,
    made: Seq<u8>,
    end: int,
    out: Seq<u8>,
    rest: Seq<u8>,
)
    requires
        finished_as(start, input, is_last, made, end, out),
        0 <= start,
        start / 8 + 12 <= made.len(),
        1 <= input.len() <= header::MAX_META_BLOCK,
        header::too_long(end - start, input.len() as int),
    ensures
        is_last ==> reader::content_from(out, start) == Some(input),
        !is_last && reader::content_from(rest, 0) is Some ==> reader::content_from(
            out + rest,
            start,
        ) == Some(input + reader::content_from(rest, 0)->0),
        forall|i: int|
            0 <= i < start ==> #[trigger] bits::stream_bit(out, i) == bits::stream_bit(made, i),
{
    let s = bits::rewound(made, start);
    let body = header::with_verbatim(s, start, input);
    math::lemma_low_bits_end(made[start / 8], (start % 8) as usize, 0);
    assert(reader::clean(s, start));
    let tail = if is_last {
        seq![3u8]
    } else {
        rest
    };
    header::lemma_verbatim_block_reads_back(s, start, input, tail);
    if is_last {
        reader::lemma_three_ends(out);
        assert(out == body + tail);
        assert(input + Seq::<u8>::empty() =~= input);
    } else {
        assert(out =~= body);
        if reader::content_from(rest, 0) is Some {
            reader::lemma_content_shift(body, rest, 0);
        }
    }
    assert forall|i: int| 0 <= i < start implies #[trigger] bits::stream_bit(out, i)
        == bits::stream_bit(made, i) by {
        let whole = body + tail;
        assert(bits::stream_bit(whole, i) == bits::stream_bit(s, i));
        assert(header::aligned(start + header::header_bits(input.len() as int)) / 8 > i / 8);
        assert(whole[i / 8] == out[i / 8]);
        if i / 8 == start / 8 {
            math::lemma_low_bits_end(made[start / 8], (start % 8) as usize, i % 8);
        }
    }
}

} // verus!
