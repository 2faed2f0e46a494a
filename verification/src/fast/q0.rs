//! Quality 0: the fast one-pass encoder.
//!
//! Matches are found and turned into tokens in the same pass. The order of every
//! decision (candidate preference, hash update points, block merging and the
//! uncompressed fallback) is stated as a function of the data and of what the
//! prefix codes cost.
use vstd::arithmetic::power2;
use vstd::prelude::*;

use crate::backend::Backend;
use crate::fast::constants::{
    HASH_MUL32, MAX_BACKWARD_DISTANCE, Q0_FIRST_BLOCK_SIZE,
    Q0_MAX_MERGED_BLOCK_SIZE, Q0_MERGE_BLOCK_SIZE, Q0_MIN_MATCH, Q0_MIN_RATIO, SHORT_INSERT_LIMIT,
    WINDOW_GAP,
};
use crate::greedy::search;
use crate::greedy::search::measure;
use crate::math;
use crate::shared::match_len;
use crate::shared::match_len::load_u64_le;

verus! {

/// Longest fragment the encoder takes.
pub const MAX_FRAGMENT: usize = 0x4000_0000;

/// Hash table widths quality 0 uses; only odd shifts are supported.
#[derive(Copy, Clone, Debug, PartialEq, Eq, Structural)]
pub enum TableBits {
    /// 512 entries.
    B9,
    /// 2048 entries.
    B11,
    /// 8192 entries.
    B13,
    /// 32768 entries.
    B15,
}

impl TableBits {
    /// The base-2 logarithm of the table width.
    pub open spec fn width(self) -> usize {
        match self {
            TableBits::B9 => 9,
            TableBits::B11 => 11,
            TableBits::B13 => 13,
            TableBits::B15 => 15,
        }
    }

    /// Selects the narrowest table with an entry for each of `input_size` bytes,
    /// up to the widest.
    pub fn for_input(input_size: usize) -> (bits: Self)
        ensures
            input_size <= power2::pow2(bits.width() as nat) || bits == TableBits::B15,
            bits != TableBits::B9 ==> input_size > power2::pow2((bits.width() - 2) as nat),
    {
        proof {
            power2::lemma2_to64();
        }
        if input_size <= 512 {
            TableBits::B9
        } else if input_size <= 2048 {
            TableBits::B11
        } else if input_size <= 8192 {
            TableBits::B13
        } else {
            TableBits::B15
        }
    }

    /// Returns the number of entries of a table of this width.
    pub fn entries(self) -> (entries: usize)
        ensures
            entries == power2::pow2(self.width() as nat),
            512 <= entries <= 32768,
    {
        proof {
            power2::lemma2_to64();
        }
        match self {
            TableBits::B9 => 512,
            TableBits::B11 => 2048,
            TableBits::B13 => 8192,
            TableBits::B15 => 32768,
        }
    }

    /// Returns the base-2 logarithm of the table width.
    pub fn bits(self) -> (bits: usize)
        ensures
            bits == self.width(),
            9 <= bits <= 15,
    {
        match self {
            TableBits::B9 => 9,
            TableBits::B11 => 11,
            TableBits::B13 => 13,
            TableBits::B15 => 15,
        }
    }
}

/// The width of the narrowest table with an entry for each of `len` bytes, up to the
/// widest.
pub open spec fn width_for(len: int, bits: int) -> bool {
    &&& bits == 9 || bits == 11 || bits == 13 || bits == 15
    &&& len <= power2::pow2(bits as nat) || bits == 15
    &&& bits > 9 ==> len > power2::pow2((bits - 2) as nat)
}

/// The table index of a word's low five bytes.
pub open spec fn hash_of_word(word: u64, bits: usize) -> int {
    ((word << 24u64).wrapping_mul(HASH_MUL32 as u64) >> ((64 - bits) as u64)) as int
}

/// The table index of the five bytes at a position.
pub open spec fn hash_at(data: Seq<u8>, position: int, bits: usize) -> int {
    hash_of_word(match_len::word_at(data, position), bits)
}

/// Hashes the five bytes at `position` into a table index.
pub fn hash(data: &[u8], position: usize, bits: usize) -> (index: usize)
    requires
        9 <= bits <= 15,
    ensures
        index == hash_at(data@, position as int, bits),
        index < power2::pow2(bits as nat),
{
    hash_bytes_at_offset(load_u64_le(data, position), 0, bits)
}

/// Hashes bytes `offset..offset + 5` of an already loaded machine word.
pub fn hash_bytes_at_offset(word: u64, offset: u32, bits: usize) -> (index: usize)
    requires
        offset <= 3,
        9 <= bits <= 15,
    ensures
        index == hash_of_word(word >> ((8 * offset) as u64), bits),
        index < power2::pow2(bits as nat),
        offset == 0 ==> index == hash_of_word(word, bits),
{
    let shifted: u64 = word >> (8 * offset);
    let mixed: u64 = (shifted << 24u64).wrapping_mul(HASH_MUL32 as u64);
    proof {
        math::lemma_top_bits(mixed, (64 - bits) as u64, bits as nat);
        power2::lemma2_to64();
        if bits < 15 {
            power2::lemma_pow2_strictly_increases(bits as nat, 15);
        }
        if offset == 0 {
            vstd::bits::lemma_u64_shr_is_div(word, 0);
        }
    }
    (mixed >> ((64 - bits) as u64)) as usize
}

/// Hashing inside a loaded word is hashing at the shifted position.
pub proof fn lemma_hash_at_offset(data: Seq<u8>, position: int, offset: u32, bits: usize)
    requires
        0 <= position,
        position + offset + 8 <= data.len(),
        offset <= 3,
    ensures
        hash_of_word(match_len::word_at(data, position) >> ((8 * offset) as u64), bits) == hash_at(
            data,
            position + offset,
            bits,
        ),
{
    let b = data.subrange(position, position + 8);
    let c = data.subrange(position + offset, position + offset + 8);
    assert forall|k: int| 0 <= k < 5 implies #[trigger] c[k] == b[k + offset] by {}
    math::lemma_shifted_five(b, c, offset);
}

/// The fixed five-byte match predicate at two positions: eight bytes are readable on
/// either side, and the first five agree.
pub open spec fn five_match(data: Seq<u8>, left: int, right: int) -> bool {
    &&& left + 8 <= data.len()
    &&& right + 8 <= data.len()
    &&& (match_len::word_at(data, left) ^ match_len::word_at(data, right)) & 0xFF_FFFF_FFFF == 0
}

/// Tests the fixed five-byte match predicate at two positions.
///
/// Fewer than eight readable bytes on either side are no match.
pub fn is_match(data: &[u8], left: usize, right: usize) -> (equal: bool)
    ensures
        equal == five_match(data@, left as int, right as int),
        left + 8 > data@.len() || right + 8 > data@.len() ==> !equal,
        left + 8 <= data@.len() && right + 8 <= data@.len() ==> (equal <==> data@.subrange(
            left as int,
            left + 5,
        ) == data@.subrange(right as int, right + 5)),
{
    if data.len() < 8 || left > data.len() - 8 || right > data.len() - 8 {
        return false;
    }
    let x: u64 = load_u64_le(data, left);
    let y: u64 = load_u64_le(data, right);
    proof {
        math::lemma_low_five_bytes(x, y);
        if left + 8 <= data@.len() && right + 8 <= data@.len() {
            let b = data@.subrange(left as int, left + 8);
            let c = data@.subrange(right as int, right + 8);
            math::lemma_word_of(b);
            math::lemma_word_of(c);
            let short_left = data@.subrange(left as int, left + 5);
            let short_right = data@.subrange(right as int, right + 5);
            assert forall|k: int| 0 <= k < 5 implies (#[trigger] short_left[k] == short_right[k]
                <==> math::word_byte(x, k) == math::word_byte(y, k)) by {
                assert(b[k] == short_left[k] && c[k] == short_right[k]);
            }
            if five_match(data@, left as int, right as int) {
                assert forall|k: int| 0 <= k < 5 implies #[trigger] short_left[k] == short_right[k] by {
                    assert(math::word_byte(x, k) == math::word_byte(y, k));
                }
                assert(short_left =~= short_right);
            }
            if short_left == short_right {
                assert forall|k: int| 0 <= k < 5 implies #[trigger] math::word_byte(x, k)
                    == math::word_byte(y, k) by {
                    assert(short_left[k] == short_right[k]);
                }
            }
        }
    }
    (x ^ y) & 0xFF_FFFF_FFFF == 0
}

/// A long literal run is better left uncompressed: little of the meta-block was
/// compressed, and literals cost nearly a byte each.
pub open spec fn prefers_raw(
    metablock_start: int,
    next_emit: int,
    insert: int,
    literal_ratio: int,
) -> bool {
    (next_emit - metablock_start) * 50 <= insert && literal_ratio > Q0_MIN_RATIO
}

/// Decides whether a large literal run is better left uncompressed.
pub fn should_use_uncompressed_mode(
    metablock_start: usize,
    next_emit: usize,
    insert: usize,
    literal_ratio: usize,
) -> (raw: bool)
    requires
        metablock_start <= next_emit,
    ensures
        raw == prefers_raw(
            metablock_start as int,
            next_emit as int,
            insert as int,
            literal_ratio as int,
        ),
{
    let compressed: usize = next_emit - metablock_start;
    if compressed > insert / 50 {
        return false;
    }
    literal_ratio > Q0_MIN_RATIO
}

/// One step of a one-pass encoding.
#[derive(Copy, Clone, Debug, PartialEq, Eq, Structural)]
pub enum Token {
    /// A meta-block of `size` bytes begins at `from`, with its prefix codes.
    Open {
        /// First byte.
        from: usize,
        /// Number of bytes announced.
        size: usize,
    },
    /// The open meta-block grows to `total` bytes.
    Extend {
        /// Number of bytes announced now.
        total: usize,
    },
    /// The open meta-block is rewritten verbatim and closed.
    Raw {
        /// First byte.
        from: usize,
        /// One past the last byte.
        to: usize,
    },
    /// Literals.
    Insert {
        /// First byte.
        from: usize,
        /// Number of bytes.
        len: usize,
    },
    /// A copy.
    Copy {
        /// Number of bytes.
        len: usize,
        /// How far back it starts.
        distance: usize,
        /// The distance is coded as a repetition of the last one.
        repeated: bool,
        /// The copy shares its command with the literals before it.
        joined: bool,
    },
}

/// What the costs are asked, and what they say.
pub enum Ask {
    /// What the literals of a meta-block cost that opens with these bytes.
    Open(Seq<u8>, usize),
    /// Whether these bytes join the open meta-block.
    Merges(Seq<u8>, bool),
}

/// What the prefix codes of a meta-block cost.
///
/// A kind of costs says nothing but which answers it can give.
pub trait BlockCosts: Sized {
    /// Costs of this kind can say this, whatever they were asked before.
    open spec fn says(ask: Ask) -> bool {
        arbitrary()
    }

    /// Builds the literal code of a meta-block's first block; returns what a
    /// literal costs, in millibytes.
    fn open(&mut self, block: &[u8]) -> (ratio: usize)
        ensures
            Self::says(Ask::Open(block@, ratio)),
    ;

    /// Whether a further block costs little enough with the open literal code.
    fn merges(&mut self, block: &[u8]) -> (merge: bool)
        ensures
            Self::says(Ask::Merges(block@, merge)),
    ;
}

/// Everything that was said is what costs of a kind can say.
pub open spec fn heard<C: BlockCosts>(asked: Seq<Ask>) -> bool {
    forall|i: int| 0 <= i < asked.len() ==> C::says(#[trigger] asked[i])
}

/// One more thing that costs of a kind can say.
proof fn lemma_heard<C: BlockCosts>(asked: Seq<Ask>, ask: Ask)
    requires
        heard::<C>(asked),
        C::says(ask),
    ensures
        heard::<C>(asked.push(ask)),
{
    assert forall|i: int| 0 <= i < asked.push(ask).len() implies C::says(
        #[trigger] asked.push(ask)[i],
    ) by {
        if i < asked.len() {
            assert(asked.push(ask)[i] == asked[i]);
        }
    }
}

/// What is known once a block has been scanned.
#[derive(Copy, Clone, Debug, PartialEq, Eq, Structural)]
pub struct Answer {
    /// What a literal of the next meta-block costs, if one is opened.
    pub ratio: usize,
    /// Whether the next block joins the open meta-block, if that is asked.
    pub merge: bool,
}

/// Where the scan of a fragment stands.
pub struct Pass {
    /// The tokens made.
    pub tokens: Seq<Token>,
    /// The newest position of each hash.
    pub table: Seq<i32>,
    /// First byte not covered.
    pub next_emit: int,
    /// The last distance of the block, or zero.
    pub last: int,
}

/// How a scan goes on after a match.
pub enum Next {
    /// The meta-block was left uncompressed up to here.
    Stop(int),
    /// The block is scanned.
    Done,
    /// The search goes on from here.
    Resume(int),
}

/// Where the encoding of a fragment stands.
pub struct Front {
    /// The scan.
    pub pass: Pass,
    /// First byte of the next block.
    pub input: int,
    /// Number of bytes in the next block.
    pub block_size: int,
    /// First byte of the open meta-block.
    pub start: int,
    /// Number of bytes it announces.
    pub total: int,
    /// What one of its literals costs.
    pub ratio: int,
}

/// A fragment and how it is encoded.
pub struct Fragment<'a> {
    /// The bytes.
    pub data: &'a [u8],
    /// Width of the hash table.
    pub bits: usize,
    /// Whether no distance may be coded as a repetition.
    pub independent: bool,
    /// The instructions a comparison uses.
    pub backend: Backend,
}

impl<'a> Fragment<'a> {
    /// The table index at a position.
    pub open spec fn slot(&self, at: int) -> int {
        hash_at(self.data@, at, self.bits)
    }

    /// The next five-byte match inside the window, from a position on: the last
    /// distance is preferred over the table, and the steps grow as nothing is
    /// found. Every position looked at is recorded.
    pub open spec fn hit(&self, table: Seq<i32>, at: int, skip: int, limit: int, last: int) -> (
        Option<(int, int)>,
        Seq<i32>,
    )
        decreases limit - at,
    {
        let next = at + skip / 32;
        if skip < 32 || next > limit {
            (None, table)
        } else {
            let after = table.update(self.slot(at), at as i32);
            let candidate = if 0 < last <= at && five_match(self.data@, at, at - last) {
                at - last
            } else {
                table[self.slot(at)] as int
            };
            if five_match(self.data@, at, candidate) && at - candidate <= MAX_BACKWARD_DISTANCE {
                (Some((at, candidate)), after)
            } else {
                self.hit(after, next, skip + 1, limit, last)
            }
        }
    }

    /// The length of a match that starts with five agreeing bytes.
    pub open spec fn length(&self, at: int, candidate: int, end: int) -> int {
        Q0_MIN_MATCH + search::agreement(
            self.data@,
            candidate + Q0_MIN_MATCH,
            at + Q0_MIN_MATCH,
            end - at - Q0_MIN_MATCH,
        )
    }

    /// The table with the positions before and at the end of a copy recorded, and
    /// the candidate it held there.
    pub open spec fn touched(&self, table: Seq<i32>, at: int) -> (Seq<i32>, int) {
        let inside = table.update(self.slot(at - 3), (at - 3) as i32).update(
            self.slot(at - 2),
            (at - 2) as i32,
        ).update(self.slot(at - 1), (at - 1) as i32);
        (inside.update(self.slot(at), at as i32), inside[self.slot(at)] as int)
    }

    /// The copies that follow one another with no literals between; the position
    /// where they end, or nothing at the end of the block.
    pub open spec fn follow(&self, pass: Pass, at: int, candidate: int, limit: int, end: int) -> (
        Pass,
        Option<int>,
    )
        decreases limit - at,
    {
        if !five_match(self.data@, at, candidate) || at - candidate > MAX_BACKWARD_DISTANCE {
            (pass, Some(at))
        } else {
            let len = self.length(at, candidate, end);
            let copied = Pass {
                tokens: pass.tokens.push(
                    Token::Copy {
                        len: len as usize,
                        distance: (at - candidate) as usize,
                        repeated: false,
                        joined: false,
                    },
                ),
                next_emit: at + len,
                last: at - candidate,
                ..pass
            };
            if len <= 0 || at + len >= limit {
                (copied, None)
            } else {
                let (table, next) = self.touched(copied.table, at + len);
                self.follow(Pass { table, ..copied }, at + len, next, limit, end)
            }
        }
    }

    /// A copy after literals.
    pub open spec fn joined(&self, pass: Pass, at: int, candidate: int, end: int) -> Pass {
        let len = self.length(at, candidate, end);
        Pass {
            tokens: pass.tokens.push(
                Token::Insert {
                    from: pass.next_emit as usize,
                    len: (at - pass.next_emit) as usize,
                },
            ).push(
                Token::Copy {
                    len: len as usize,
                    distance: (at - candidate) as usize,
                    repeated: !self.independent && at - candidate == pass.last,
                    joined: true,
                },
            ),
            table: pass.table,
            next_emit: at + len,
            last: at - candidate,
        }
    }

    /// What a match leads to: the meta-block is left uncompressed so far, or the
    /// literals before the match and a run of copies are emitted.
    pub open spec fn taken(
        &self,
        pass: Pass,
        ip: int,
        candidate: int,
        limit: int,
        end: int,
        start: int,
        ratio: int,
    ) -> (Pass, Next) {
        let insert = ip - pass.next_emit;
        if insert >= SHORT_INSERT_LIMIT && prefers_raw(start, pass.next_emit, insert, ratio) {
            (
                Pass {
                    tokens: pass.tokens.push(Token::Raw { from: start as usize, to: ip as usize }),
                    next_emit: ip,
                    ..pass
                },
                Next::Stop(ip),
            )
        } else {
            let copied = self.joined(pass, ip, candidate, end);
            if copied.next_emit >= limit || copied.next_emit <= ip {
                (copied, Next::Done)
            } else {
                let (inside, next) = self.touched(copied.table, copied.next_emit);
                let (after, resume) = self.follow(
                    Pass { table: inside, ..copied },
                    copied.next_emit,
                    next,
                    limit,
                    end,
                );
                match resume {
                    None => (after, Next::Done),
                    Some(stop) => (after, Next::Resume(stop + 1)),
                }
            }
        }
    }

    /// The rest of a block, from a position on; where it stops early because the
    /// meta-block is left uncompressed so far.
    pub open spec fn scanned(
        &self,
        pass: Pass,
        at: int,
        limit: int,
        end: int,
        start: int,
        ratio: int,
    ) -> (Pass, Option<int>)
        decreases limit - at,
        via Self::scanned_decreases
    {
        let (found, table) = self.hit(pass.table, at, 32, limit, pass.last);
        match found {
            None => (Pass { table, ..pass }, None),
            Some((ip, candidate)) => {
                let (after, next) = self.taken(
                    Pass { table, ..pass },
                    ip,
                    candidate,
                    limit,
                    end,
                    start,
                    ratio,
                );
                match next {
                    Next::Stop(base) => (after, Some(base)),
                    Next::Done => (after, None),
                    Next::Resume(resume) => self.scanned(after, resume, limit, end, start, ratio),
                }
            },
        }
    }

    #[via_fn]
    proof fn scanned_decreases(
        &self,
        pass: Pass,
        at: int,
        limit: int,
        end: int,
        start: int,
        ratio: int,
    ) {
        let (found, table) = self.hit(pass.table, at, 32, limit, pass.last);
        self.lemma_hit_bounds(pass.table, at, 32, limit, pass.last);
        if let Some((ip, candidate)) = found {
            let copied = self.joined(Pass { table, ..pass }, ip, candidate, end);
            if copied.next_emit < limit && copied.next_emit > ip {
                let (inside, next) = self.touched(copied.table, copied.next_emit);
                self.lemma_follow_bounds(
                    Pass { table: inside, ..copied },
                    copied.next_emit,
                    next,
                    limit,
                    end,
                );
            }
        }
    }

    /// A match lies between where the search began and the limit.
    proof fn lemma_hit_bounds(&self, table: Seq<i32>, at: int, skip: int, limit: int, last: int)
        ensures
            self.hit(table, at, skip, limit, last).0 matches Some((ip, _)) ==> at <= ip < limit,
        decreases limit - at,
    {
        let next = at + skip / 32;
        if skip >= 32 && next <= limit {
            self.lemma_hit_bounds(
                table.update(self.slot(at), at as i32),
                next,
                skip + 1,
                limit,
                last,
            );
        }
    }

    /// A run of copies ends between where it began and the limit.
    proof fn lemma_follow_bounds(&self, pass: Pass, at: int, candidate: int, limit: int, end: int)
        requires
            at < limit,
        ensures
            self.follow(pass, at, candidate, limit, end).1 matches Some(stop) ==> at <= stop < limit,
        decreases limit - at,
    {
        if five_match(self.data@, at, candidate) && at - candidate <= MAX_BACKWARD_DISTANCE {
            let len = self.length(at, candidate, end);
            let copied = Pass {
                tokens: pass.tokens.push(
                    Token::Copy {
                        len: len as usize,
                        distance: (at - candidate) as usize,
                        repeated: false,
                        joined: false,
                    },
                ),
                next_emit: at + len,
                last: at - candidate,
                ..pass
            };
            if len > 0 && at + len < limit {
                let (table, next) = self.touched(copied.table, at + len);
                self.lemma_follow_bounds(Pass { table, ..copied }, at + len, next, limit, end);
            }
        }
    }
}

/// How much of the fragment a list of tokens covers.
pub open spec fn covered(tokens: Seq<Token>) -> int
    decreases tokens.len(),
{
    if tokens.len() == 0 {
        0
    } else {
        let before = covered(tokens.drop_last());
        match tokens.last() {
            Token::Open { .. } | Token::Extend { .. } => before,
            Token::Raw { to, .. } => to as int,
            Token::Insert { len, .. } => before + len,
            Token::Copy { len, .. } => before + len,
        }
    }
}

/// Where the meta-block opened last begins and how many bytes it announces.
pub open spec fn announced(tokens: Seq<Token>) -> (int, int)
    decreases tokens.len(),
{
    if tokens.len() == 0 {
        (0, 0)
    } else {
        let (from, size) = announced(tokens.drop_last());
        match tokens.last() {
            Token::Open { from, size } => (from as int, size as int),
            Token::Extend { total } => (from, total as int),
            _ => (from, size),
        }
    }
}

/// The meta-block opened last covers what it announces, or was left uncompressed.
pub open spec fn settled(tokens: Seq<Token>) -> bool {
    let (from, size) = announced(tokens);
    ||| tokens.len() == 0
    ||| tokens.last() is Raw
    ||| covered(tokens) == from + size
}

/// A token, put after others, stands for the bytes of the fragment that follow.
pub open spec fn token_holds(data: Seq<u8>, before: Seq<Token>, token: Token) -> bool {
    let at = covered(before);
    match token {
        Token::Open { from, size } => from == at && 0 < size && from + size <= data.len() && settled(
            before,
        ),
        Token::Extend { total } => announced(before).0 + total <= data.len(),
        Token::Raw { from, to } => from == announced(before).0 && from <= to <= data.len(),
        Token::Insert { from, len } => from == at && from + len <= data.len(),
        Token::Copy { len, distance, .. } => {
            &&& 1 <= distance <= at
            &&& distance <= MAX_BACKWARD_DISTANCE
            &&& at + len <= data.len()
            &&& forall|i: int|
                at <= i < at + len ==> #[trigger] data[i] == data[i - distance]
        },
    }
}

/// Every token of a list stands for the bytes that follow the ones before it.
pub open spec fn tokens_hold(data: Seq<u8>, tokens: Seq<Token>) -> bool
    decreases tokens.len(),
{
    tokens.len() > 0 ==> tokens_hold(data, tokens.drop_last()) && token_holds(
        data,
        tokens.drop_last(),
        tokens.last(),
    )
}

/// One more token.
proof fn lemma_token_push(data: Seq<u8>, tokens: Seq<Token>, token: Token)
    requires
        tokens_hold(data, tokens),
        token_holds(data, tokens, token),
    ensures
        tokens_hold(data, tokens.push(token)),
        covered(tokens.push(token)) == match token {
            Token::Open { .. } | Token::Extend { .. } => covered(tokens),
            Token::Raw { to, .. } => to as int,
            Token::Insert { len, .. } => covered(tokens) + len,
            Token::Copy { len, .. } => covered(tokens) + len,
        },
        announced(tokens.push(token)) == match token {
            Token::Open { from, size } => (from as int, size as int),
            Token::Extend { total } => (announced(tokens).0, total as int),
            _ => announced(tokens),
        },
{
    assert(tokens.push(token).drop_last() =~= tokens);
}

/// The tokens made so far and the newest position of each hash.
pub struct OnePass {
    /// The tokens made.
    pub tokens: Vec<Token>,
    /// The newest position of each hash.
    pub table: Vec<i32>,
    /// First byte not covered.
    pub next_emit: usize,
    /// The last distance of the block, or zero.
    pub last: usize,
    /// What the costs were asked.
    pub asked: Ghost<Seq<Ask>>,
}

impl View for OnePass {
    type V = Pass;

    open spec fn view(&self) -> Pass {
        Pass {
            tokens: self.tokens@,
            table: self.table@,
            next_emit: self.next_emit as int,
            last: self.last as int,
        }
    }
}

/// How a scan goes on after a match.
enum Taken {
    Stop,
    Done,
    Resume(usize),
}

/// Every position of a table lies before a place.
pub open spec fn recorded_before(table: Seq<i32>, at: int) -> bool {
    forall|i: int| 0 <= i < table.len() ==> 0 <= #[trigger] table[i] < at
}

impl<'a> Fragment<'a> {
    /// The fragment fits the encoder.
    pub open spec fn wf(&self) -> bool {
        &&& 9 <= self.bits <= 15
        &&& self.data@.len() <= MAX_FRAGMENT
    }

    /// The tokens hold, the table is full-sized and the next byte to cover is
    /// the one the tokens lead to.
    pub open spec fn pass_ok(&self, work: &OnePass) -> bool {
        &&& work.table@.len() == power2::pow2(self.bits as nat)
        &&& tokens_hold(self.data@, work.tokens@)
        &&& covered(work.tokens@) == work.next_emit
        &&& work.last <= MAX_BACKWARD_DISTANCE
    }

    /// Two stretches that agree in five bytes and beyond are a copy.
    proof fn lemma_copy_holds(&self, at: int, candidate: int, end: int)
        requires
            0 <= candidate < at,
            at + 8 <= self.data@.len(),
            at + Q0_MIN_MATCH <= end <= self.data@.len(),
            five_match(self.data@, at, candidate),
            self.data@.subrange(at, at + 5) == self.data@.subrange(candidate, candidate + 5),
        ensures
            5 <= self.length(at, candidate, end) <= end - at,
            forall|i: int|
                at <= i < at + self.length(at, candidate, end) ==> #[trigger] self.data@[i]
                    == self.data@[i - (at - candidate)],
    {
        let data = self.data@;
        let limit = end - at - Q0_MIN_MATCH;
        let len = self.length(at, candidate, end);
        let left = data.skip(candidate + Q0_MIN_MATCH);
        let right = data.skip(at + Q0_MIN_MATCH);
        match_len::lemma_match_length_exists(left, right, limit);
        assert(match_len::is_match_length(left, right, limit, len - Q0_MIN_MATCH));
        assert forall|i: int| at <= i < at + len implies #[trigger] data[i] == data[i - (at
            - candidate)] by {
            if i < at + 5 {
                assert(data.subrange(at, at + 5)[i - at] == data.subrange(
                    candidate,
                    candidate + 5,
                )[i - at]);
            } else {
                let k = i - at - Q0_MIN_MATCH;
                assert(left[k] == right[k]);
            }
        }
    }

    /// Finds the next match, recording every position looked at.
    fn find_hit(&self, table: &mut Vec<i32>, first: usize, limit: usize, last: usize) -> (found:
        Option<(usize, usize)>)
        requires
            self.wf(),
            old(table)@.len() == power2::pow2(self.bits as nat),
            1 <= first,
            recorded_before(old(table)@, first as int),
            limit + 16 <= self.data@.len(),
            first <= self.data@.len(),
        ensures
            ({
                let (expected, after) = self.hit(
                    old(table)@,
                    first as int,
                    32,
                    limit as int,
                    last as int,
                );
                &&& final(table)@ == after
                &&& found is Some == expected is Some
                &&& found is Some ==> (found->0).0 == (expected->0).0 && (found->0).1
                    == (expected->0).1
            }),
            final(table)@.len() == old(table)@.len(),
            match found {
                Some((ip, candidate)) => {
                    &&& first <= ip < limit
                    &&& candidate < ip
                    &&& ip - candidate <= MAX_BACKWARD_DISTANCE
                    &&& five_match(self.data@, ip as int, candidate as int)
                    &&& self.data@.subrange(ip as int, ip + 5) == self.data@.subrange(
                        candidate as int,
                        candidate + 5,
                    )
                    &&& recorded_before(final(table)@, ip + 1)
                },
                None => recorded_before(
                    final(table)@,
                    if first < limit {
                        limit as int
                    } else {
                        first as int
                    },
                ),
            },
    {
        let mut at: usize = first;
        let mut skip: u32 = 32;
        let ghost whole = self.hit(table@, first as int, 32, limit as int, last as int);
        loop
            invariant
                self.wf(),
                table@.len() == power2::pow2(self.bits as nat),
                table@.len() == old(table)@.len(),
                1 <= first <= at,
                recorded_before(table@, at as int),
                limit + 16 <= self.data@.len(),
                first <= self.data@.len(),
                at <= limit || at == first,
                32 <= skip <= 32 + (at - first),
                self.hit(table@, at as int, skip as int, limit as int, last as int) == whole,
                whole == self.hit(old(table)@, first as int, 32, limit as int, last as int),
            decreases self.data@.len() + 1 - at,
        {
            let stride: usize = (skip >> 5u32) as usize;
            proof {
                vstd::bits::lemma_u32_shr_is_div(skip, 5);
                power2::lemma2_to64();
                assert(stride == skip / 32);
            }
            if at + stride > limit {
                return None;
            }
            let next: usize = at + stride;
            let slot: usize = hash(self.data, at, self.bits);
            let held: i32 = table[slot];
            assert(0 <= table@[slot as int] < at);
            let mut candidate: usize = held as usize;
            let mut matches: bool = false;
            if last > 0 && last <= at && is_match(self.data, at, at - last) {
                candidate = at - last;
                matches = true;
            } else {
                matches = is_match(self.data, at, candidate);
            }
            let ghost before = table@;
            table.set(slot, at as i32);
            proof {
                assert forall|i: int| 0 <= i < table@.len() implies 0 <= #[trigger] table@[i] < at
                    + 1 by {
                    if i != slot {
                        assert(before[i] < at);
                    }
                }
            }
            if matches && at - candidate <= MAX_BACKWARD_DISTANCE {
                return Some((at, candidate));
            }
            at = next;
            skip = skip + 1;
        }
    }

    /// Records the positions before and at the end of a copy; returns the
    /// candidate found there.
    fn touch(&self, table: &mut Vec<i32>, at: usize) -> (candidate: usize)
        requires
            self.wf(),
            old(table)@.len() == power2::pow2(self.bits as nat),
            3 < at,
            at + 8 <= self.data@.len(),
            recorded_before(old(table)@, at as int),
        ensures
            (final(table)@, candidate as int) == self.touched(old(table)@, at as int),
            final(table)@.len() == old(table)@.len(),
            recorded_before(final(table)@, at + 1),
            candidate < at,
    {
        let word: u64 = load_u64_le(self.data, at - 3);
        proof {
            lemma_hash_at_offset(self.data@, at - 3, 1, self.bits);
            lemma_hash_at_offset(self.data@, at - 3, 2, self.bits);
            lemma_hash_at_offset(self.data@, at - 3, 3, self.bits);
        }
        let current: usize = hash_bytes_at_offset(word, 3, self.bits);
        let first: usize = hash_bytes_at_offset(word, 0, self.bits);
        let second: usize = hash_bytes_at_offset(word, 1, self.bits);
        let third: usize = hash_bytes_at_offset(word, 2, self.bits);
        let ghost t0 = table@;
        table.set(first, (at - 3) as i32);
        let ghost t1 = table@;
        table.set(second, (at - 2) as i32);
        let ghost t2 = table@;
        table.set(third, (at - 1) as i32);
        let ghost t3 = table@;
        proof {
            assert forall|i: int| 0 <= i < t3.len() implies 0 <= #[trigger] t3[i] < at by {
                assert(0 <= t0[i] < at);
            }
        }
        let candidate: usize = table[current] as usize;
        table.set(current, at as i32);
        proof {
            assert forall|i: int| 0 <= i < table@.len() implies 0 <= #[trigger] table@[i] < at + 1 by {
                if i != current {
                    assert(0 <= t3[i] < at);
                }
            }
        }
        candidate
    }
}

impl<'a> Fragment<'a> {
    /// Measures a match that starts with five agreeing bytes.
    fn measure_match(&self, at: usize, candidate: usize, end: usize) -> (len: usize)
        requires
            self.wf(),
            candidate < at,
            at + 8 <= self.data@.len(),
            at + Q0_MIN_MATCH <= end <= self.data@.len(),
            five_match(self.data@, at as int, candidate as int),
            self.data@.subrange(at as int, at + 5) == self.data@.subrange(
                candidate as int,
                candidate + 5,
            ),
        ensures
            len == self.length(at as int, candidate as int, end as int),
            5 <= len <= end - at,
            forall|i: int|
                at <= i < at + len ==> #[trigger] self.data@[i] == self.data@[i - (at - candidate)],
    {
        proof {
            self.lemma_copy_holds(at as int, candidate as int, end as int);
        }
        Q0_MIN_MATCH + measure(
            self.backend,
            self.data,
            candidate + Q0_MIN_MATCH,
            at + Q0_MIN_MATCH,
            end - at - Q0_MIN_MATCH,
        )
    }

    /// Makes the copies that follow one another with no literals between.
    fn copy_run(
        &self,
        work: &mut OnePass,
        first: usize,
        first_candidate: usize,
        limit: usize,
        end: usize,
    ) -> (stop: Option<usize>)
        requires
            self.wf(),
            self.pass_ok(old(work)),
            old(work).next_emit == first,
            first < limit,
            3 < first,
            first_candidate < first,
            recorded_before(old(work).table@, first + 1),
            limit + 16 <= self.data@.len(),
            limit + Q0_MIN_MATCH <= end <= self.data@.len(),
        ensures
            self.pass_ok(final(work)),
            ({
                let (pass, resume) = self.follow(
                    old(work)@,
                    first as int,
                    first_candidate as int,
                    limit as int,
                    end as int,
                );
                &&& final(work)@ == pass
                &&& stop is Some == resume is Some
                &&& stop is Some ==> stop->0 == resume->0
            }),
            stop matches Some(at) ==> {
                &&& first <= at < limit
                &&& final(work).next_emit == at
                &&& recorded_before(final(work).table@, at + 1)
            },
            stop is None ==> recorded_before(final(work).table@, limit as int),
            first <= final(work).next_emit <= end,
            final(work).table@.len() == old(work).table@.len(),
            announced(final(work).tokens@) == announced(old(work).tokens@),
    {
        let mut at: usize = first;
        let mut candidate: usize = first_candidate;
        let ghost whole = self.follow(
            work@,
            first as int,
            first_candidate as int,
            limit as int,
            end as int,
        );
        while is_match(self.data, at, candidate) && at - candidate <= MAX_BACKWARD_DISTANCE
            invariant
                self.wf(),
                self.pass_ok(work),
                work.next_emit == at,
                first <= at < limit,
                3 < at,
                candidate < at,
                recorded_before(work.table@, at + 1),
                limit + 16 <= self.data@.len(),
                limit + Q0_MIN_MATCH <= end <= self.data@.len(),
                self.follow(work@, at as int, candidate as int, limit as int, end as int) == whole,
                whole == self.follow(
                    old(work)@,
                    first as int,
                    first_candidate as int,
                    limit as int,
                    end as int,
                ),
                work.table@.len() == old(work).table@.len(),
                announced(work.tokens@) == announced(old(work).tokens@),
            decreases limit - at,
        {
            let len: usize = self.measure_match(at, candidate, end);
            let token = Token::Copy {
                len,
                distance: at - candidate,
                repeated: false,
                joined: false,
            };
            proof {
                lemma_token_push(self.data@, work.tokens@, token);
            }
            work.tokens.push(token);
            work.next_emit = at + len;
            work.last = at - candidate;
            if at + len >= limit {
                proof {
                    assert forall|i: int| 0 <= i < work.table@.len() implies 0
                        <= #[trigger] work.table@[i] < limit by {}
                }
                return None;
            }
            at = at + len;
            proof {
                assert forall|i: int| 0 <= i < work.table@.len() implies 0
                    <= #[trigger] work.table@[i] < at by {}
            }
            candidate = self.touch(&mut work.table, at);
        }
        Some(at)
    }

    /// Emits what a match leads to.
    #[verifier::rlimit(30)]
    fn take_hit(
        &self,
        work: &mut OnePass,
        ip: usize,
        candidate: usize,
        limit: usize,
        end: usize,
        start: usize,
        ratio: usize,
    ) -> (taken: Taken)
        requires
            self.wf(),
            self.pass_ok(old(work)),
            start <= old(work).next_emit < ip,
            ip < limit,
            candidate < ip,
            ip - candidate <= MAX_BACKWARD_DISTANCE,
            five_match(self.data@, ip as int, candidate as int),
            self.data@.subrange(ip as int, ip + 5) == self.data@.subrange(
                candidate as int,
                candidate + 5,
            ),
            recorded_before(old(work).table@, ip + 1),
            limit + 16 <= self.data@.len(),
            limit + Q0_MIN_MATCH <= end <= self.data@.len(),
            announced(old(work).tokens@).0 == start,
        ensures
            self.pass_ok(final(work)),
            final(work).table@.len() == old(work).table@.len(),
            ({
                let (pass, next) = self.taken(
                    old(work)@,
                    ip as int,
                    candidate as int,
                    limit as int,
                    end as int,
                    start as int,
                    ratio as int,
                );
                &&& final(work)@ == pass
                &&& match taken {
                    Taken::Stop => next == Next::Stop(ip as int),
                    Taken::Done => next == Next::Done,
                    Taken::Resume(resume) => next == Next::Resume(resume as int),
                }
            }),
            match taken {
                Taken::Stop => {
                    &&& final(work).next_emit == ip
                    &&& final(work).tokens@.len() > 0
                    &&& final(work).tokens@.last() is Raw
                    &&& recorded_before(final(work).table@, ip + 1)
                },
                Taken::Done => {
                    &&& recorded_before(final(work).table@, limit as int)
                    &&& start <= final(work).next_emit <= end
                    &&& announced(final(work).tokens@) == announced(old(work).tokens@)
                },
                Taken::Resume(resume) => {
                    &&& recorded_before(final(work).table@, resume as int)
                    &&& start <= final(work).next_emit < resume
                    &&& ip < resume <= limit
                    &&& final(work).next_emit <= end
                    &&& announced(final(work).tokens@) == announced(old(work).tokens@)
                },
            },
    {
        let insert: usize = ip - work.next_emit;
        if insert >= SHORT_INSERT_LIMIT && should_use_uncompressed_mode(
            start,
            work.next_emit,
            insert,
            ratio,
        ) {
            let token = Token::Raw { from: start, to: ip };
            proof {
                lemma_token_push(self.data@, work.tokens@, token);
            }
            work.tokens.push(token);
            work.next_emit = ip;
            return Taken::Stop;
        }
        let len: usize = self.measure_match(ip, candidate, end);
        let literals = Token::Insert { from: work.next_emit, len: insert };
        let copy = Token::Copy {
            len,
            distance: ip - candidate,
            repeated: !self.independent && ip - candidate == work.last,
            joined: true,
        };
        proof {
            lemma_token_push(self.data@, work.tokens@, literals);
            lemma_token_push(self.data@, work.tokens@.push(literals), copy);
        }
        work.tokens.push(literals);
        work.tokens.push(copy);
        work.next_emit = ip + len;
        work.last = ip - candidate;
        assert(work@ == self.joined(old(work)@, ip as int, candidate as int, end as int));
        if ip + len >= limit {
            proof {
                assert forall|i: int| 0 <= i < work.table@.len() implies 0 <= #[trigger] work.table@[i]
                    < limit by {}
            }
            return Taken::Done;
        }
        proof {
            assert forall|i: int| 0 <= i < work.table@.len() implies 0 <= #[trigger] work.table@[i]
                < ip + len by {}
        }
        let next: usize = self.touch(&mut work.table, ip + len);
        match self.copy_run(work, ip + len, next, limit, end) {
            None => Taken::Done,
            Some(stopped) => Taken::Resume(stopped + 1),
        }
    }

    /// Scans a block from a position on.
    ///
    /// Returns where the meta-block was left uncompressed, if it was.
    #[verifier::rlimit(60)]
    fn scan_rest(
        &self,
        work: &mut OnePass,
        first: usize,
        limit: usize,
        end: usize,
        start: usize,
        ratio: usize,
    ) -> (stop: Option<usize>)
        requires
            self.wf(),
            self.pass_ok(old(work)),
            start <= old(work).next_emit,
            old(work).next_emit < first,
            1 <= first <= self.data@.len(),
            recorded_before(old(work).table@, first as int),
            limit + 16 <= self.data@.len(),
            limit + Q0_MIN_MATCH <= end <= self.data@.len(),
            announced(old(work).tokens@).0 == start,
            old(work).next_emit <= end,
        ensures
            self.pass_ok(final(work)),
            ({
                let (pass, expected) = self.scanned(
                    old(work)@,
                    first as int,
                    limit as int,
                    end as int,
                    start as int,
                    ratio as int,
                );
                &&& final(work)@ == pass
                &&& stop is Some == expected is Some
                &&& stop is Some ==> stop->0 == expected->0
            }),
            match stop {
                Some(base) => {
                    &&& first <= base < limit
                    &&& final(work).next_emit == base
                    &&& final(work).tokens@.last() is Raw
                    &&& final(work).tokens@.len() > 0
                    &&& recorded_before(final(work).table@, base + 1)
                },
                None => {
                    &&& recorded_before(
                        final(work).table@,
                        if first < limit {
                            limit as int
                        } else {
                            first as int
                        },
                    )
                    &&& start <= final(work).next_emit <= end
                    &&& announced(final(work).tokens@) == announced(old(work).tokens@)
                },
            },
            final(work).table@.len() == old(work).table@.len(),
    {
        let mut at: usize = first;
        let ghost whole = self.scanned(
            work@,
            first as int,
            limit as int,
            end as int,
            start as int,
            ratio as int,
        );
        loop
            invariant
                self.wf(),
                self.pass_ok(work),
                start <= work.next_emit,
                work.next_emit < at,
                work.next_emit <= end,
                1 <= first <= at <= self.data@.len(),
                at == first || at <= limit,
                recorded_before(work.table@, at as int),
                limit + 16 <= self.data@.len(),
                limit + Q0_MIN_MATCH <= end <= self.data@.len(),
                announced(work.tokens@).0 == start,
                announced(work.tokens@) == announced(old(work).tokens@),
                self.scanned(
                    work@,
                    at as int,
                    limit as int,
                    end as int,
                    start as int,
                    ratio as int,
                ) == whole,
                whole == self.scanned(
                    old(work)@,
                    first as int,
                    limit as int,
                    end as int,
                    start as int,
                    ratio as int,
                ),
                work.table@.len() == old(work).table@.len(),
            decreases self.data@.len() - at,
        {
            let last: usize = work.last;
            match self.find_hit(&mut work.table, at, limit, last) {
                None => {
                    return None;
                },
                Some((ip, candidate)) => {
                    match self.take_hit(work, ip, candidate, limit, end, start, ratio) {
                        Taken::Stop => {
                            return Some(ip);
                        },
                        Taken::Done => {
                            return None;
                        },
                        Taken::Resume(resume) => {
                            at = resume;
                        },
                    }
                },
            }
        }
    }
}

impl<'a> Fragment<'a> {
    /// Opens a meta-block at a position, if input is left there.
    pub open spec fn reopened(&self, pass: Pass, at: int, ratio: int) -> Front {
        let left = self.data@.len() - at;
        let size = if left < Q0_FIRST_BLOCK_SIZE {
            left
        } else {
            Q0_FIRST_BLOCK_SIZE as int
        };
        Front {
            pass: if left > 0 {
                Pass {
                    tokens: pass.tokens.push(
                        Token::Open { from: at as usize, size: size as usize },
                    ),
                    ..pass
                }
            } else {
                pass
            },
            input: at,
            block_size: size,
            start: at,
            total: size,
            ratio,
        }
    }

    /// What scanning the next block leaves.
    ///
    /// The scan keeps a margin at the end of the fragment so that every distance
    /// stays below the window size, and the length of a match at the end of the
    /// block.
    pub open spec fn block_scan(&self, front: Front) -> (Pass, Option<int>) {
        let pass = Pass { last: 0, ..front.pass };
        let room = self.data@.len() - front.input - WINDOW_GAP;
        let span = front.block_size - Q0_MIN_MATCH;
        if front.block_size < WINDOW_GAP {
            (pass, None)
        } else {
            self.scanned(
                pass,
                front.input + 1,
                front.input + if span < room {
                    span
                } else {
                    room
                },
                front.input + front.block_size,
                front.start,
                front.ratio,
            )
        }
    }

    /// What closing a meta-block leaves: its last literals, or the whole of it
    /// uncompressed.
    pub open spec fn flushed(&self, pass: Pass, end: int, start: int, ratio: int) -> Pass {
        let insert = end - pass.next_emit;
        if insert <= 0 {
            pass
        } else {
            Pass {
                tokens: pass.tokens.push(
                    if insert >= SHORT_INSERT_LIMIT && prefers_raw(
                        start,
                        pass.next_emit,
                        insert,
                        ratio,
                    ) {
                        Token::Raw { from: start as usize, to: end as usize }
                    } else {
                        Token::Insert { from: pass.next_emit as usize, len: insert as usize }
                    },
                ),
                next_emit: end,
                ..pass
            }
        }
    }

    /// How many bytes the block after this one would have.
    pub open spec fn next_size(&self, front: Front) -> int {
        let left = self.data@.len() - front.input - front.block_size;
        if left < Q0_MERGE_BLOCK_SIZE {
            left
        } else {
            Q0_MERGE_BLOCK_SIZE as int
        }
    }

    /// Whether it is asked if the next block joins the open meta-block.
    pub open spec fn may_merge(&self, front: Front) -> bool {
        self.next_size(front) > 0 && front.total + self.next_size(front) <= Q0_MAX_MERGED_BLOCK_SIZE
    }

    /// Where the encoding stands after one more block.
    pub open spec fn step(&self, front: Front, answer: Answer) -> Front {
        let (pass, stop) = self.block_scan(front);
        let end = front.input + front.block_size;
        match stop {
            Some(base) => self.reopened(pass, base, answer.ratio as int),
            None => if self.may_merge(front) && answer.merge {
                let total = front.total + self.next_size(front);
                Front {
                    pass: Pass {
                        tokens: pass.tokens.push(Token::Extend { total: total as usize }),
                        ..pass
                    },
                    input: end,
                    block_size: self.next_size(front),
                    total,
                    ..front
                }
            } else {
                self.reopened(
                    self.flushed(pass, end, front.start, front.ratio),
                    end,
                    answer.ratio as int,
                )
            },
        }
    }

    /// What is asked when a meta-block opens at a position.
    pub open spec fn opening(&self, at: int, ratio: usize) -> Seq<Ask> {
        let left = self.data@.len() - at;
        let size = if left < Q0_FIRST_BLOCK_SIZE {
            left
        } else {
            Q0_FIRST_BLOCK_SIZE as int
        };
        if left > 0 {
            seq![Ask::Open(self.data@.subrange(at, at + size), ratio)]
        } else {
            Seq::empty()
        }
    }

    /// What is asked for one more block.
    pub open spec fn asks(&self, front: Front, answer: Answer) -> Seq<Ask> {
        let stop = self.block_scan(front).1;
        let end = front.input + front.block_size;
        match stop {
            Some(base) => self.opening(base, answer.ratio),
            None => if self.may_merge(front) {
                let merges = seq![
                    Ask::Merges(
                        self.data@.subrange(end, end + self.next_size(front)),
                        answer.merge,
                    ),
                ];
                if answer.merge {
                    merges
                } else {
                    merges + self.opening(end, answer.ratio)
                }
            } else {
                self.opening(end, answer.ratio)
            },
        }
    }

    /// What is asked over a whole fragment.
    pub open spec fn all_asks(&self, first: Front, ratio: usize, answers: Seq<Answer>) -> Seq<Ask>
        decreases answers.len(),
    {
        if answers.len() == 0 {
            self.opening(0, ratio)
        } else {
            let fewer = answers.drop_last();
            self.all_asks(first, ratio, fewer) + self.asks(self.run(first, fewer), answers.last())
        }
    }

    /// Where a list of answers leads.
    pub open spec fn run(&self, first: Front, answers: Seq<Answer>) -> Front
        decreases answers.len(),
    {
        if answers.len() == 0 {
            first
        } else {
            self.step(self.run(first, answers.drop_last()), answers.last())
        }
    }

    /// No answer comes after the fragment is encoded.
    pub open spec fn unfinished_until(&self, first: Front, answers: Seq<Answer>) -> bool
        decreases answers.len(),
    {
        answers.len() > 0 ==> {
            &&& self.unfinished_until(first, answers.drop_last())
            &&& self.run(first, answers.drop_last()).input < self.data@.len()
        }
    }

    /// The encoding of the fragment with these costs.
    pub open spec fn encoded(
        &self,
        table: Seq<i32>,
        ratio: usize,
        answers: Seq<Answer>,
        work: Pass,
        asked: Seq<Ask>,
    ) -> bool {
        let pass = Pass { tokens: Seq::empty(), table, next_emit: 0, last: 0 };
        let first = self.reopened(pass, 0, ratio as int);
        &&& asked == self.all_asks(first, ratio, answers)
        &&& self.unfinished_until(first, answers)
        &&& self.run(first, answers).input == self.data@.len()
        &&& self.run(first, answers).pass.tokens == work.tokens
        &&& self.run(first, answers).pass.table == work.table
    }

    /// Scans the next block.
    fn scan_block(
        &self,
        work: &mut OnePass,
        input: usize,
        block_size: usize,
        start: usize,
        ratio: usize,
        Ghost(front): Ghost<Front>,
    ) -> (stop: Option<usize>)
        requires
            self.wf(),
            self.pass_ok(old(work)),
            front.pass == old(work)@,
            front.input == input,
            front.block_size == block_size,
            front.start == start,
            front.ratio == ratio,
            start <= old(work).next_emit <= input,
            recorded_before(old(work).table@, input + 1),
            0 < block_size <= self.data@.len() - input,
            announced(old(work).tokens@).0 == start,
        ensures
            self.pass_ok(final(work)),
            ({
                let (pass, expected) = self.block_scan(front);
                &&& final(work)@ == pass
                &&& stop is Some == expected is Some
                &&& stop is Some ==> stop->0 == expected->0
            }),
            match stop {
                Some(base) => {
                    &&& input < base < input + block_size
                    &&& final(work).next_emit == base
                    &&& final(work).tokens@.len() > 0
                    &&& final(work).tokens@.last() is Raw
                    &&& recorded_before(final(work).table@, base + 1)
                },
                None => {
                    &&& recorded_before(final(work).table@, input + block_size + 1)
                    &&& start <= final(work).next_emit <= input + block_size
                    &&& announced(final(work).tokens@) == announced(old(work).tokens@)
                },
            },
            final(work).table@.len() == old(work).table@.len(),
    {
        work.last = 0;
        if block_size < WINDOW_GAP {
            proof {
                assert forall|i: int| 0 <= i < work.table@.len() implies 0 <= #[trigger] work.table@[i]
                    < input + block_size + 1 by {}
            }
            return None;
        }
        let room: usize = self.data.len() - input - WINDOW_GAP;
        let span: usize = block_size - Q0_MIN_MATCH;
        let limit: usize = input + if span < room {
            span
        } else {
            room
        };
        let stop: Option<usize> = self.scan_rest(
            work,
            input + 1,
            limit,
            input + block_size,
            start,
            ratio,
        );
        proof {
            if stop is None {
                assert forall|i: int| 0 <= i < work.table@.len() implies 0 <= #[trigger] work.table@[i]
                    < input + block_size + 1 by {}
            }
        }
        stop
    }

    /// Closes the open meta-block.
    fn flush(&self, work: &mut OnePass, end: usize, start: usize, ratio: usize)
        requires
            self.wf(),
            self.pass_ok(old(work)),
            start <= old(work).next_emit <= end,
            end <= self.data@.len(),
            announced(old(work).tokens@).0 == start,
            announced(old(work).tokens@).1 == end - start,
        ensures
            self.pass_ok(final(work)),
            final(work)@ == self.flushed(old(work)@, end as int, start as int, ratio as int),
            final(work).next_emit == end,
            final(work).table@ == old(work).table@,
            settled(final(work).tokens@),
    {
        if work.next_emit < end {
            let insert: usize = end - work.next_emit;
            let token: Token = if insert >= SHORT_INSERT_LIMIT && should_use_uncompressed_mode(
                start,
                work.next_emit,
                insert,
                ratio,
            ) {
                Token::Raw { from: start, to: end }
            } else {
                Token::Insert { from: work.next_emit, len: insert }
            };
            proof {
                lemma_token_push(self.data@, work.tokens@, token);
            }
            work.tokens.push(token);
            work.next_emit = end;
        }
    }
}

/// Encodes a fragment as one or more meta-blocks at quality 0.
///
/// `table` is zeroed and has an entry for every hash. The tokens are what the
/// one-pass rules make of the data and of the costs of the prefix codes, and
/// read back they reproduce the data.
#[verifier::rlimit(60)]
#[verifier::spinoff_prover]
pub fn compress_fragment_impl<'a, C: BlockCosts>(fragment: &Fragment<'a>, costs: &mut C, table: Vec<i32>) -> (work:
    OnePass)
    requires
        fragment.wf(),
        fragment.data@.len() > 0,
        table@.len() == power2::pow2(fragment.bits as nat),
        forall|i: int| 0 <= i < table@.len() ==> #[trigger] table@[i] == 0,
    ensures
        exists|ratio: usize, answers: Seq<Answer>|
            #[trigger] fragment.encoded(table@, ratio, answers, work@, work.asked@),
        heard::<C>(work.asked@),
        tokens_hold(fragment.data@, work.tokens@),
        covered(work.tokens@) == fragment.data@.len(),
        settled(work.tokens@),
        work.table@.len() == table@.len(),
{
    let total_len: usize = fragment.data.len();
    let mut block_size: usize = if total_len < Q0_FIRST_BLOCK_SIZE {
        total_len
    } else {
        Q0_FIRST_BLOCK_SIZE
    };
    let mut work = OnePass {
        tokens: Vec::new(),
        table,
        next_emit: 0,
        last: 0,
        asked: Ghost(Seq::empty()),
    };
    let ghost table0 = table@;
    let ghost pass0 = work@;
    proof {
        assert(pass0.tokens =~= Seq::<Token>::empty());
        lemma_token_push(
            fragment.data@,
            work.tokens@,
            Token::Open { from: 0, size: block_size },
        );
    }
    work.tokens.push(Token::Open { from: 0, size: block_size });
    let first_ratio: usize = costs.open(&fragment.data[0..block_size]);
    let ghost asked_first = Ask::Open(
        fragment.data@.subrange(0, block_size as int),
        first_ratio,
    );
    let mut log: Ghost<Seq<Ask>> = Ghost(Seq::empty().push(asked_first));
    assert(log@ =~= fragment.opening(0, first_ratio));
    let mut ratio: usize = first_ratio;
    let mut input: usize = 0;
    let mut start: usize = 0;
    let mut total: usize = block_size;
    let ghost first = fragment.reopened(pass0, 0, first_ratio as int);
    let ghost mut front = first;
    let ghost mut answers = Seq::<Answer>::empty();
    while input < total_len
        invariant
            fragment.wf(),
            total_len == fragment.data@.len(),
            fragment.pass_ok(&work),
            work.table@.len() == table0.len(),
            front == fragment.run(first, answers),
            log@ == fragment.all_asks(first, first_ratio, answers),
            heard::<C>(log@),
            fragment.unfinished_until(first, answers),
            front.pass == work@,
            front.input == input,
            front.block_size == block_size,
            front.start == start,
            front.total == total,
            front.ratio == ratio,
            input <= total_len,
            input < total_len ==> {
                &&& 0 < block_size <= total_len - input
                &&& announced(work.tokens@) == (start as int, total as int)
                &&& start + total == input + block_size
                &&& total <= Q0_MAX_MERGED_BLOCK_SIZE
            },
            start <= work.next_emit <= input,
            recorded_before(work.table@, input + 1),
            input == total_len ==> settled(work.tokens@) && work.next_emit == total_len,
        decreases total_len - input,
    {
        let ghost before = front;
        let ghost asked_before = log@;
        let end: usize = input + block_size;
        let stop: Option<usize> = fragment.scan_block(
            &mut work,
            input,
            block_size,
            start,
            ratio,
            Ghost(front),
        );
        let mut reopen_at: usize = end;
        let mut merged: bool = false;
        let mut asked: bool = false;
        match stop {
            Some(base) => {
                reopen_at = base;
            },
            None => {
                let left: usize = total_len - end;
                let size: usize = if left < Q0_MERGE_BLOCK_SIZE {
                    left
                } else {
                    Q0_MERGE_BLOCK_SIZE
                };
                // Continue this meta-block instead of closing it, when that looks
                // cheaper.
                if size > 0 && total + size <= Q0_MAX_MERGED_BLOCK_SIZE {
                    asked = costs.merges(&fragment.data[end..end + size]);
                    let ghost ask = Ask::Merges(
                        fragment.data@.subrange(end as int, end + size),
                        asked,
                    );
                    proof {
                        lemma_heard::<C>(log@, ask);
                    }
                    log = Ghost(log@.push(ask));
                    if asked {
                        merged = true;
                        let token = Token::Extend { total: total + size };
                        proof {
                            lemma_token_push(fragment.data@, work.tokens@, token);
                        }
                        work.tokens.push(token);
                        total = total + size;
                        block_size = size;
                    }
                }
                if !merged {
                    fragment.flush(&mut work, end, start, ratio);
                }
            },
        }
        let mut answer = Answer { ratio: 0, merge: asked };
        if merged {
            input = end;
        } else {
            // Open a new meta-block when input is left.
            let left: usize = total_len - reopen_at;
            block_size = if left < Q0_FIRST_BLOCK_SIZE {
                left
            } else {
                Q0_FIRST_BLOCK_SIZE
            };
            ratio = 0;
            if left > 0 {
                let token = Token::Open { from: reopen_at, size: block_size };
                proof {
                    lemma_token_push(fragment.data@, work.tokens@, token);
                }
                work.tokens.push(token);
                ratio = costs.open(&fragment.data[reopen_at..reopen_at + block_size]);
                let ghost ask = Ask::Open(
                    fragment.data@.subrange(reopen_at as int, reopen_at + block_size),
                    ratio,
                );
                proof {
                    lemma_heard::<C>(log@, ask);
                }
                log = Ghost(log@.push(ask));
                answer = Answer { ratio, merge: asked };
            }
            start = reopen_at;
            total = block_size;
            input = reopen_at;
        }
        proof {
            assert(answers.push(answer).drop_last() =~= answers);
            answers = answers.push(answer);
            front = fragment.run(first, answers);
            assert(front == fragment.step(before, answer));
            assert(log@ =~= asked_before + fragment.asks(before, answer));
        }
    }
    work.asked = log;
    proof {
        assert(fragment.encoded(table0, first_ratio, answers, work@, work.asked@));
    }
    work
}

} // verus!
