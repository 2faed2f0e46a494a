//! What a match search reads, how it judges a candidate, and what it returns.
use vstd::arithmetic::power2;
use vstd::prelude::*;

use crate::backend::Backend;
use crate::greedy::tags::{matching_mask, matching_mask_32};
use crate::math;
use crate::shared::fast_log;
use crate::shared::fast_log::log2_floor_non_zero;
use crate::shared::match_len;
use crate::shared::match_len::find_match_length;

verus! {

/// Multiplier of the 64-bit hashes.
pub const HASH_MUL64: u64 = 0x1FE3_5A7B_D357_9BD3;

/// Multiplier of the 32-bit hashes.
pub const HASH_MUL32: u32 = 0x1E35_A7BD;

/// How many distances a search may probe.
pub const NUM_DISTANCE_SHORT_CODES: usize = 16;

/// The cache entries the encoder actually remembers across meta-blocks.
pub const NUM_REMEMBERED_DISTANCES: usize = 4;

/// The distances a search may probe: four of real history, the rest derived
/// from them by [`prepare_distance_cache`].
pub type DistanceCache = [i32; 16];

/// Where scores start, so that no penalty takes one below zero.
pub const SCORE_BASE: usize = 1920;

/// What one matched byte is worth.
pub const LITERAL_BYTE_SCORE: usize = 135;

/// What one bit of distance costs.
pub const DISTANCE_BIT_PENALTY: usize = 30;

/// Score below which a reference is not worth a command.
pub const MIN_SCORE: usize = 2020;

/// Longest match a search may report: a whole input block.
pub const MAX_MATCH: usize = 0x100_0000;

/// Longest buffer a search runs over.
pub const MAX_BUFFER: usize = 0xC000_0000;

/// The distance cache every stream starts with.
pub fn initial_distance_cache() -> (cache: DistanceCache)
    ensures
        cache@ == seq![4i32, 11, 15, 16, 0, 0, 0, 0, 0, 0, 0, 0, 0, 0, 0, 0],
{
    [4, 11, 15, 16, 0, 0, 0, 0, 0, 0, 0, 0, 0, 0, 0, 0]
}

/// The near misses of a distance, in the order the cache lists them.
pub open spec fn near_miss(distance: i32, i: int) -> int {
    distance + if i == 0 {
        -1
    } else if i == 1 {
        1
    } else if i == 2 {
        -2
    } else if i == 3 {
        2
    } else if i == 4 {
        -3
    } else {
        3
    }
}

/// Fills the derived entries of the distance cache.
///
/// A matcher that probes more than four distances also probes the values one,
/// two and three either side of the freshest one, and one that probes more than
/// ten does the same with the second freshest.
pub fn prepare_distance_cache(cache: &mut DistanceCache, num_distances: usize)
    requires
        i32::MIN + 3 <= old(cache)@[0] <= i32::MAX - 3,
        i32::MIN + 3 <= old(cache)@[1] <= i32::MAX - 3,
    ensures
        forall|i: int|
            0 <= i < 16 ==> #[trigger] final(cache)@[i] == if 4 <= i < 10 && num_distances > 4 {
                near_miss(old(cache)@[0], i - 4)
            } else if 10 <= i && num_distances > 10 {
                near_miss(old(cache)@[1], i - 10)
            } else {
                old(cache)@[i] as int
            },
{
    if num_distances <= NUM_REMEMBERED_DISTANCES {
        return;
    }
    let last: i32 = cache[0];
    cache[4] = last - 1;
    cache[5] = last + 1;
    cache[6] = last - 2;
    cache[7] = last + 2;
    cache[8] = last - 3;
    cache[9] = last + 3;
    if num_distances > 10 {
        let next_last: i32 = cache[1];
        cache[10] = next_last - 1;
        cache[11] = next_last + 1;
        cache[12] = next_last - 2;
        cache[13] = next_last + 2;
        cache[14] = next_last - 3;
        cache[15] = next_last + 3;
    }
}

/// The byte at an index, or zero past the end.
pub open spec fn byte_at(data: Seq<u8>, i: int) -> u8 {
    if 0 <= i < data.len() {
        data[i]
    } else {
        0
    }
}

/// The four little-endian bytes at an index, or zero past the end.
pub open spec fn half_at(data: Seq<u8>, i: int) -> u32 {
    if 0 <= i && i + 4 <= data.len() {
        data[i] as u32 | (data[i + 1] as u32) << 8 | (data[i + 2] as u32) << 16 | (data[i + 3] as u32)
            << 24
    } else {
        0
    }
}

/// Reads eight little-endian bytes at `offset`, or zero past the end.
pub fn read_u64(data: &[u8], offset: usize) -> (word: u64)
    ensures
        word == match_len::word_at(data@, offset as int),
{
    match_len::load_u64_le(data, offset)
}

/// Reads four little-endian bytes at `offset`, or zero past the end.
pub fn read_u32(data: &[u8], offset: usize) -> (word: u32)
    ensures
        word == half_at(data@, offset as int),
{
    if data.len() < 4 || offset > data.len() - 4 {
        return 0;
    }
    data[offset] as u32 | (data[offset + 1] as u32) << 8 | (data[offset + 2] as u32) << 16 | (
    data[offset + 3] as u32) << 24
}

/// Reads the byte `more` past `offset`, or zero past the end.
pub fn read_u8(data: &[u8], offset: usize, more: usize) -> (byte: u8)
    ensures
        byte == byte_at(data@, offset + more),
{
    if offset < data.len() && more < data.len() - offset {
        data[offset + more]
    } else {
        0
    }
}

/// The best candidate of a search so far.
#[derive(Copy, Clone, Debug, PartialEq, Eq, Structural)]
pub struct SearchResult {
    /// Length of the match, or zero.
    pub len: usize,
    /// How far back it starts.
    pub distance: usize,
    /// What it is worth.
    pub score: usize,
    /// How much its coded length differs from `len`.
    pub len_code_delta: i32,
}

impl SearchResult {
    /// A search that has found nothing.
    pub fn empty() -> (result: Self)
        ensures
            result == (SearchResult { len: 0, distance: 0, score: MIN_SCORE, len_code_delta: 0 }),
    {
        SearchResult { len: 0, distance: 0, score: MIN_SCORE, len_code_delta: 0 }
    }

    /// Returns whether the candidate is worth a command.
    pub fn is_match(&self) -> (worth: bool)
        ensures
            worth == (self.score > MIN_SCORE),
    {
        self.score > MIN_SCORE
    }
}

/// The logarithm a distance is charged by.
pub open spec fn distance_bits(distance: int) -> int {
    choose|r: int| fast_log::is_log2_floor(distance, r)
}

/// What a match of this length and distance is worth.
pub open spec fn reference_score(len: int, distance: int) -> int {
    SCORE_BASE + LITERAL_BYTE_SCORE * len - DISTANCE_BIT_PENALTY * distance_bits(distance)
}

/// What a match at the last distance is worth, whatever the distance.
pub open spec fn cached_score(len: int) -> int {
    SCORE_BASE + 15 + LITERAL_BYTE_SCORE * len
}

/// What a match at another cached distance is charged.
pub open spec fn cached_penalty(index: int) -> int {
    39 + ((0x1CA10u64 >> ((index as u64) & 0xE)) & 0xE)
}

/// Scores a match by its length and the bits its distance takes.
pub fn backward_reference_score(len: usize, distance: usize) -> (score: usize)
    requires
        len <= MAX_MATCH,
        distance > 0,
    ensures
        score == reference_score(len as int, distance as int),
        LITERAL_BYTE_SCORE * len <= score <= SCORE_BASE + LITERAL_BYTE_SCORE * len,
{
    let bits: u32 = log2_floor_non_zero(distance);
    proof {
        assert(fast_log::is_log2_floor(distance as int, bits as int));
        fast_log::lemma_log2_unique(
            distance as int,
            bits as int,
            distance_bits(distance as int),
        );
    }
    SCORE_BASE + LITERAL_BYTE_SCORE * len - DISTANCE_BIT_PENALTY * bits as usize
}

/// Scores a match at the last distance.
pub fn backward_reference_score_using_last_distance(len: usize) -> (score: usize)
    requires
        len <= MAX_MATCH,
    ensures
        score == cached_score(len as int),
{
    LITERAL_BYTE_SCORE * len + SCORE_BASE + 15
}

/// What a match at cached distance `index` is charged.
pub fn backward_reference_penalty_using_last_distance(index: usize) -> (penalty: usize)
    requires
        index < 16,
    ensures
        penalty == cached_penalty(index as int),
        39 <= penalty <= 53,
{
    let shift: u64 = (index as u64) & 0xE;
    proof {
        math::lemma_penalty_bound(index as u64);
    }
    39 + ((0x1CA10u64 >> shift) & 0xE) as usize
}

/// How many bytes at two places of a buffer agree, up to `limit`; zero where
/// either stretch does not fit.
pub open spec fn agreement(data: Seq<u8>, left: int, right: int, limit: int) -> int {
    if left + limit <= data.len() && right + limit <= data.len() {
        choose|k: int| match_len::is_match_length(data.skip(left), data.skip(right), limit, k)
    } else {
        0
    }
}

/// Measures how far `data[left..]` repeats `data[right..]`.
pub fn measure(backend: Backend, data: &[u8], left: usize, right: usize, limit: usize) -> (len: usize)
    ensures
        len == agreement(data@, left as int, right as int, limit as int),
        len <= limit,
        match_len::agree(data@.skip(left as int), data@.skip(right as int), len as int),
        len > 0 ==> left + len <= data@.len() && right + len <= data@.len(),
{
    let len: usize = find_match_length(backend, data, left, right, limit);
    proof {
        if left + limit <= data@.len() && right + limit <= data@.len() {
            match_len::lemma_match_length_unique(
                data@.skip(left as int),
                data@.skip(right as int),
                limit as int,
                len as int,
                agreement(data@, left as int, right as int, limit as int),
            );
        }
    }
    len
}

/// Everything a match finder needs from its caller, gathered once.
#[derive(Copy, Clone)]
pub struct MatchQuery<'a> {
    /// The ring buffer being searched, tail copy and margin included.
    pub data: &'a [u8],
    /// `data` cut to the window.
    pub window: &'a [u8],
    /// Mask that turns an absolute position into a buffer index.
    pub mask: usize,
    /// The distances that have short codes.
    pub cache: &'a DistanceCache,
    /// Absolute position the match would start at.
    pub cur_ix: usize,
    /// Longest match the remaining input allows.
    pub max_length: usize,
    /// Longest backward distance inside the window.
    pub max_backward: usize,
    /// Offset the stream starts at, zero for ordinary ones.
    pub position_offset: usize,
    /// Cap on the distance to the start of the stream.
    pub dictionary_limit: usize,
    /// Distance shift that addresses the attached dictionary.
    pub gap: usize,
    /// Longest distance the distance alphabet can express.
    pub max_distance: usize,
}

impl<'a> MatchQuery<'a> {
    /// The buffer index the match would start at.
    pub open spec fn here(&self) -> int {
        (self.cur_ix & self.mask) as int
    }

    /// The buffer index a distance leads back to.
    pub open spec fn back(&self, distance: int) -> int {
        (((self.cur_ix - distance) as usize) & self.mask) as int
    }

    /// The query is one an encoder makes: positions fit 32 bits, the match
    /// starts inside the buffer, and no distance leads before the stream.
    pub open spec fn wf(&self) -> bool {
        &&& self.data@.len() <= MAX_BUFFER
        &&& self.window@.len() <= self.data@.len()
        &&& self.window@ == self.data@.take(self.window@.len() as int)
        &&& self.here() <= self.data@.len()
        &&& self.cur_ix <= u32::MAX
        &&& self.max_length <= MAX_MATCH
        &&& self.max_backward <= self.cur_ix
        &&& self.max_backward < 0x8000_0000
    }

    /// A backward reference that reproduces the bytes at the query: inside the
    /// stream, no longer than asked for, and every byte agrees.
    pub open spec fn genuine(&self, len: int, distance: int) -> bool {
        &&& 1 <= distance <= self.cur_ix
        &&& 0 <= len <= self.max_length
        &&& match_len::agree(
            self.data@.skip(self.back(distance)),
            self.data@.skip(self.here()),
            len,
        )
        &&& len > 0 ==> self.back(distance) + len <= self.data@.len() && self.here() + len
            <= self.data@.len()
    }

    /// Returns the distance to the start of the stream, capped to the window.
    pub fn dictionary_start(&self) -> (start: usize)
        requires
            self.cur_ix + self.position_offset <= usize::MAX,
        ensures
            start == if self.cur_ix + self.position_offset < self.dictionary_limit {
                self.cur_ix + self.position_offset
            } else {
                self.dictionary_limit as int
            },
    {
        let start: usize = self.cur_ix + self.position_offset;
        if start < self.dictionary_limit {
            start
        } else {
            self.dictionary_limit
        }
    }

    /// Returns the distance at which the static dictionary begins.
    pub fn dictionary_distance(&self) -> (distance: usize)
        requires
            self.cur_ix + self.position_offset <= usize::MAX,
            self.dictionary_limit + self.gap <= usize::MAX,
        ensures
            distance == self.gap + if self.cur_ix + self.position_offset < self.dictionary_limit {
                self.cur_ix + self.position_offset
            } else {
                self.dictionary_limit as int
            },
    {
        self.dictionary_start() + self.gap
    }
}

/// What [`crate::greedy::matcher::Matcher::prepare`] did to the table, which
/// tells a caller how to leave it clean for the next stream.
#[derive(Copy, Clone, Debug, PartialEq, Eq, Structural)]
pub enum Sweep {
    /// Only the slots the first `input_size` positions hash to were cleared.
    Partial,
    /// The whole table was cleared.
    Full,
    /// The table empties itself on every preparation.
    SelfCleaning,
}

/// The running best of one bucket scan: what every candidate is checked
/// against before it is measured.
#[derive(Copy, Clone, Debug, PartialEq, Eq, Structural)]
pub struct Best {
    /// Length of the best match so far, at least three.
    pub len: u32,
    /// The four bytes ending one past `len`, which a candidate has to
    /// reproduce before it is worth measuring.
    pub word: u32,
}

/// The match one search has found so far.
#[derive(Copy, Clone, Debug, PartialEq, Eq, Structural)]
pub struct Found {
    /// Length of the match; zero while nothing has been found.
    pub len: usize,
    /// How far back it starts.
    pub distance: usize,
    /// Score to beat.
    pub score: usize,
}

impl Found {
    /// What was found is a genuine backward reference inside the window.
    pub open spec fn sound(&self, query: &MatchQuery) -> bool {
        self.len > 0 ==> query.genuine(self.len as int, self.distance as int) && self.distance
            <= query.max_backward
    }

    /// What was found is what was found before, or a longer-than-one match of a
    /// better score.
    pub open spec fn improves(&self, before: Found) -> bool {
        *self == before || self.len >= 2 && self.score > before.score
    }
}

/// Measures the cached-distance candidate at `prev_ix`; returns its length and
/// score when it beats `best_score`, and `None` otherwise.
///
/// Two-byte matches are only worth scoring for the two freshest cached
/// distances; anything shorter never wins.
pub fn accept_cached(
    backend: Backend,
    query: &MatchQuery,
    prev_ix: usize,
    index: usize,
    best_score: usize,
) -> (accepted: Option<(usize, usize)>)
    requires
        query.wf(),
        index < 16,
    ensures
        accepted == cached_verdict(query, prev_ix as int, index as int, best_score as int),
        accepted is Some ==> {
            &&& 2 <= (accepted->0).0 <= query.max_length
            &&& best_score < (accepted->0).1
            &&& match_len::agree(
                query.data@.skip(prev_ix as int),
                query.data@.skip(query.here()),
                (accepted->0).0 as int,
            )
            &&& prev_ix + (accepted->0).0 <= query.data@.len()
            &&& query.here() + (accepted->0).0 <= query.data@.len()
        },
{
    let cur_ix_masked: usize = query.cur_ix & query.mask;
    let len: usize = measure(backend, query.data, prev_ix, cur_ix_masked, query.max_length);
    if len >= 3 || (len == 2 && index < 2) {
        let whole: usize = backward_reference_score_using_last_distance(len);
        if best_score < whole {
            let score: usize = if index != 0 {
                whole - backward_reference_penalty_using_last_distance(index)
            } else {
                whole
            };
            if best_score < score {
                return Some((len, score));
            }
        }
    }
    None
}

/// What becomes of the candidate at a cached distance.
pub open spec fn cached_verdict(query: &MatchQuery, prev: int, index: int, best_score: int) -> Option<
    (usize, usize),
> {
    let len = agreement(query.data@, prev, query.here(), query.max_length as int);
    let score = cached_score(len) - if index != 0 {
        cached_penalty(index)
    } else {
        0
    };
    if (len >= 3 || (len == 2 && index < 2)) && best_score < score {
        Some((len as usize, score as usize))
    } else {
        None
    }
}

/// What one more candidate does to a scan: whether the scan goes on, and the
/// best so far.
///
/// A candidate outside the window ends the scan. One inside it is measured only
/// if it reproduces the four bytes ending one past the best length, and wins
/// only with at least four bytes and a better score.
pub open spec fn judged(query: &MatchQuery, prev: u32, best: Best, found: Found) -> (bool, Best, Found) {
    if prev > query.cur_ix || query.cur_ix - prev > query.max_backward {
        (false, best, found)
    } else if prev == query.cur_ix {
        (true, best, found)
    } else {
        let at = ((prev as usize) & query.mask) as int;
        let distance = query.cur_ix - prev;
        let len = agreement(query.data@, at, query.here(), query.max_length as int);
        let score = reference_score(len, distance);
        if at + best.len + 1 <= query.window@.len() && best.word == half_at(
            query.window@,
            at + best.len - 3,
        ) && len >= 4 && found.score < score {
            (
                true,
                Best { len: len as u32, word: half_at(query.data@, query.here() + len - 3) },
                Found { len: len as usize, distance: distance as usize, score: score as usize },
            )
        } else {
            (true, best, found)
        }
    }
}

/// What a list of candidates, taken in order, leaves as the best.
pub open spec fn judged_all(
    query: &MatchQuery,
    candidates: Seq<u32>,
    best: Best,
    found: Found,
) -> (Best, Found)
    decreases candidates.len(),
{
    if candidates.len() == 0 {
        (best, found)
    } else {
        let (goes_on, next_best, next_found) = judged(query, candidates[0], best, found);
        if goes_on {
            judged_all(query, candidates.drop_first(), next_best, next_found)
        } else {
            (best, found)
        }
    }
}

/// Measures the bucket candidate at `prev_ix`, which has already reproduced the
/// four bytes of [`Best::word`]; returns the new running best and its score
/// when it beats `best_score`, and `None` otherwise.
pub fn accept_candidate(
    backend: Backend,
    query: &MatchQuery,
    prev_ix: usize,
    backward: usize,
    best_score: usize,
) -> (accepted: Option<(Best, usize)>)
    requires
        query.wf(),
        backward > 0,
    ensures
        ({
            let len = agreement(query.data@, prev_ix as int, query.here(), query.max_length as int);
            let score = reference_score(len, backward as int);
            accepted == if len >= 4 && best_score < score {
                Some(
                    (
                        Best {
                            len: len as u32,
                            word: half_at(query.data@, query.here() + len - 3),
                        },
                        score as usize,
                    ),
                )
            } else {
                None
            }
        }),
        accepted is Some ==> {
            &&& 4 <= (accepted->0).0.len <= query.max_length
            &&& (accepted->0).0.len == agreement(
                query.data@,
                prev_ix as int,
                query.here(),
                query.max_length as int,
            )
            &&& best_score < (accepted->0).1
            &&& match_len::agree(
                query.data@.skip(prev_ix as int),
                query.data@.skip(query.here()),
                (accepted->0).0.len as int,
            )
            &&& prev_ix + (accepted->0).0.len <= query.data@.len()
            &&& query.here() + (accepted->0).0.len <= query.data@.len()
        },
{
    let cur_ix_masked: usize = query.cur_ix & query.mask;
    let len: usize = measure(backend, query.data, prev_ix, cur_ix_masked, query.max_length);
    if len < 4 {
        return None;
    }
    let score: usize = backward_reference_score(len, backward);
    if best_score < score {
        let best = Best { len: len as u32, word: read_u32(query.data, cur_ix_masked + len - 3) };
        return Some((best, score));
    }
    None
}

/// Judges one bucket candidate at `prev_ix`; `false` ends the scan.
pub fn consider(
    backend: Backend,
    query: &MatchQuery,
    prev_ix: u32,
    best: &mut Best,
    found: &mut Found,
) -> (goes_on: bool)
    requires
        query.wf(),
        3 <= old(best).len <= MAX_MATCH,
        old(found).sound(query),
    ensures
        (goes_on, *final(best), *final(found)) == judged(query, prev_ix, *old(best), *old(found)),
        3 <= final(best).len <= MAX_MATCH,
        final(found).sound(query),
        final(found).improves(*old(found)),
{
    let previous: usize = prev_ix as usize;
    if previous > query.cur_ix || query.cur_ix - previous > query.max_backward {
        return false;
    }
    let backward: usize = query.cur_ix - previous;
    if backward == 0 {
        // A position is never its own candidate.
        return true;
    }
    let masked: usize = previous & query.mask;
    let reach: usize = best.len as usize + 1;
    if masked > query.window.len() || reach > query.window.len() - masked {
        return true;
    }
    if best.word != read_u32(query.window, masked + best.len as usize - 3) {
        return true;
    }
    if let Some((accepted, score)) = accept_candidate(
        backend,
        query,
        masked,
        backward,
        found.score,
    ) {
        *best = accepted;
        *found = Found { len: accepted.len as usize, distance: backward, score };
    }
    true
}

/// Which cached distance a probe may try: one inside the stream and the window.
pub open spec fn probes(query: &MatchQuery, index: int) -> bool {
    1 <= query.cache@[index] <= query.max_backward
}

/// What the cached distances from `index` on leave as the length to beat and the
/// match found.
pub open spec fn probed(
    query: &MatchQuery,
    index: int,
    limit: int,
    best_len: int,
    found: Found,
) -> (int, Found)
    decreases limit - index,
{
    if index >= limit {
        (best_len, found)
    } else if !probes(query, index) {
        probed(query, index + 1, limit, best_len, found)
    } else if query.here() + best_len >= query.window@.len() {
        (best_len, found)
    } else {
        let at = query.back(query.cache@[index] as int);
        if at + best_len >= query.window@.len() || query.window@[query.here() + best_len]
            != query.window@[at + best_len] {
            probed(query, index + 1, limit, best_len, found)
        } else {
            match cached_verdict(query, at, index, found.score as int) {
                Some((len, score)) => probed(
                    query,
                    index + 1,
                    limit,
                    len as int,
                    Found { len, distance: query.cache@[index] as usize, score },
                ),
                None => probed(query, index + 1, limit, best_len, found),
            }
        }
    }
}

/// How many cached distances a bucket of `block` slots probes.
pub open spec fn distances_for(block: int) -> int {
    if block <= 32 {
        4
    } else if block <= 128 {
        10
    } else {
        16
    }
}

/// Returns how many cached distances a bucket of `block` slots probes.
pub fn last_distances_for(block: usize) -> (count: usize)
    ensures
        count == distances_for(block as int),
        4 <= count <= 16,
{
    if block <= 32 {
        4
    } else if block <= 128 {
        10
    } else {
        16
    }
}

/// Tries the cached distances before any bucket is consulted.
///
/// Returns the length the bucket scan's compare offset starts from, raised to
/// three so the scan can compare four bytes unconditionally, and the running
/// result. The incoming length only seeds the probes' compare offset; the
/// result starts empty.
pub fn probe_last_distances(
    backend: Backend,
    query: &MatchQuery,
    out: &SearchResult,
    block: usize,
) -> (seed: (usize, Found))
    requires
        query.wf(),
        out.len <= MAX_MATCH,
    ensures
        ({
            let (best_len, found) = probed(
                query,
                0,
                distances_for(block as int),
                out.len as int,
                Found { len: 0, distance: 0, score: out.score },
            );
            (seed.0 as int, seed.1) == (
                if best_len < 3 {
                    3
                } else {
                    best_len
                },
                found,
            )
        }),
        3 <= seed.0 <= MAX_MATCH,
        seed.1.sound(query),
        seed.1.improves(Found { len: 0, distance: 0, score: out.score }),
{
    let cur_ix: usize = query.cur_ix;
    let cur_ix_masked: usize = cur_ix & query.mask;
    let mut best_len: usize = out.len;
    let mut found = Found { len: 0, distance: 0, score: out.score };
    let limit: usize = last_distances_for(block);
    let ghost whole = probed(query, 0, limit as int, best_len as int, found);
    let mut index: usize = 0;
    while index < limit
        invariant
            query.wf(),
            index <= limit <= 16,
            cur_ix == query.cur_ix,
            cur_ix_masked == query.cur_ix & query.mask,
            best_len <= MAX_MATCH,
            found.sound(query),
            found.improves(Found { len: 0, distance: 0, score: out.score }),
            probed(query, index as int, limit as int, best_len as int, found) == whole,
        ensures
            best_len <= MAX_MATCH,
            found.sound(query),
            found.improves(Found { len: 0, distance: 0, score: out.score }),
            whole == (best_len as int, found),
        decreases limit - index,
    {
        let cached: i32 = query.cache[index];
        if cached <= 0 || cached as usize > query.max_backward {
            index += 1;
            continue;
        }
        let backward: usize = cached as usize;
        let prev_ix: usize = (cur_ix - backward) & query.mask;
        let cur_at: usize = cur_ix_masked + best_len;
        if cur_at >= query.window.len() {
            break;
        }
        if prev_ix >= query.window.len() || best_len >= query.window.len() - prev_ix
            || query.window[cur_at] != query.window[prev_ix + best_len] {
            index += 1;
            continue;
        }
        if let Some((len, score)) = accept_cached(backend, query, prev_ix, index, found.score) {
            best_len = len;
            found = Found { len, distance: backward, score };
        }
        index += 1;
    }
    if best_len < 3 {
        best_len = 3;
    }
    (best_len, found)
}

/// Records what a search found; where it found nothing, everything stays.
pub open spec fn written_back(out: SearchResult, found: Found) -> SearchResult {
    if found.len != 0 {
        SearchResult {
            len: found.len,
            distance: found.distance,
            score: found.score,
            len_code_delta: 0,
        }
    } else {
        out
    }
}

/// Records what a search found; where it found nothing, everything stays.
pub fn write_back(out: &mut SearchResult, found: Found)
    ensures
        *final(out) == written_back(*old(out), found),
{
    if found.len != 0 {
        out.len = found.len;
        out.distance = found.distance;
        out.score = found.score;
        out.len_code_delta = 0;
    }
}

/// The slot `age` stores older than the newest one, in a block that fills downwards.
pub open spec fn aged_slot(n: int, newest: int, age: int) -> int {
    (newest + age) % n
}

/// Rotates a raw tag-equality mask so that bit `age` names the slot `age`
/// stores older than the newest one, dropping slots no store has filled.
///
/// `bits` is the block capacity, `available` how many of its slots hold
/// positions. Slots fill downwards, so the newest position sits at `newest` and
/// older ones follow it upwards, wrapping to the bottom.
pub fn rotate_candidates(equal: u32, bits: u32, newest: u32, available: u32) -> (ages: u32)
    requires
        0 < bits <= 32,
        newest < bits,
        available <= bits,
    ensures
        forall|age: int|
            0 <= age < 64 ==> (#[trigger] math::word_bit(ages as u64, age) <==> age < available
                && math::word_bit(equal as u64, aged_slot(bits as int, newest as int, age))),
{
    let lanes: u32 = 0xFFFF_FFFFu32 >> (32 - bits);
    let filled: u32 = if available == 0 {
        0
    } else {
        0xFFFF_FFFFu32 >> (32 - available)
    };
    let masked: u32 = equal & lanes;
    let wrapped: u32 = if newest == 0 && bits == 32 {
        0
    } else {
        (masked << (bits - newest)) & lanes
    };
    let ages: u32 = ((masked >> newest) | wrapped) & filled;
    proof {
        assert forall|age: int| 0 <= age < 64 implies (#[trigger] math::word_bit(ages as u64, age)
            <==> age < available && math::word_bit(
            equal as u64,
            aged_slot(bits as int, newest as int, age),
        )) by {
            if age >= 32 {
                math::lemma_half_word(ages, age);
            } else {
                math::lemma_rotated_ages(equal, bits, newest, available, age as u32);
                if age < bits {
                    math::lemma_mod_offset(newest as int, age, bits as int);
                    vstd::arithmetic::div_mod::lemma_small_mod(newest as nat, bits as nat);
                }
            }
        }
    }
    ages
}

/// One bit per slot of `tags` whose byte equals `tag`.
///
/// The scalar backend and any block that is not a whole vector report every
/// slot, which keeps the unfiltered scan.
pub fn tag_equality(backend: Backend, tags: &[u8], tag: u8) -> (equal: u32)
    ensures
        forall|i: int|
            0 <= i < 32 ==> (#[trigger] math::word_bit(equal as u64, i) <==> {
                ||| backend.of() == crate::backend::BackendKind::Scalar
                ||| tags@.len() != 16 && tags@.len() != 32
                ||| i < tags@.len() && tags@[i] == tag
            }),
{
    if !backend.is_scalar() && tags.len() == 32 {
        let mask: u64 = matching_mask_32(backend, tags, tag);
        proof {
            assert forall|i: int| 0 <= i < 32 implies #[trigger] math::word_bit(
                (mask as u32) as u64,
                i,
            ) == math::word_bit(mask, i) by {
                math::lemma_low_half(mask, i);
            }
        }
        return mask as u32;
    }
    if !backend.is_scalar() && tags.len() == 16 {
        let mask: u64 = matching_mask(backend, tags, tag);
        proof {
            assert forall|i: int| 0 <= i < 32 implies #[trigger] math::word_bit(
                (mask as u32) as u64,
                i,
            ) == math::word_bit(mask, i) by {
                math::lemma_low_half(mask, i);
            }
        }
        return mask as u32;
    }
    proof {
        assert forall|i: int| 0 <= i < 32 implies #[trigger] math::word_bit(
            0xFFFF_FFFFu32 as u64,
            i,
        ) by {
            math::lemma_all_ones(i);
        }
    }
    0xFFFF_FFFF
}

/// Whether a scan visits a slot: deep blocks visit all, shallow ones those the mask names.
pub open spec fn visits(n: int, equal: u32, slot: int) -> bool {
    n > 32 || math::word_bit(equal as u64, slot)
}

/// The positions a scan visits, from the one of this age on, newest first.
pub open spec fn candidates_from(
    bucket: Seq<u32>,
    equal: u32,
    newest: int,
    available: int,
    age: int,
) -> Seq<u32>
    decreases available - age,
{
    if age >= available {
        Seq::empty()
    } else {
        let slot = aged_slot(bucket.len() as int, newest, age);
        let rest = candidates_from(bucket, equal, newest, available, age + 1);
        if visits(bucket.len() as int, equal, slot) {
            seq![bucket[slot]] + rest
        } else {
            rest
        }
    }
}

/// Ages the mask leaves out add nothing.
proof fn lemma_skip_ages(
    bucket: Seq<u32>,
    equal: u32,
    newest: int,
    available: int,
    from: int,
    to: int,
)
    requires
        0 <= from <= to <= available,
        forall|age: int|
            from <= age < to ==> !#[trigger] visits(
                bucket.len() as int,
                equal,
                aged_slot(bucket.len() as int, newest, age),
            ),
    ensures
        candidates_from(bucket, equal, newest, available, from) == candidates_from(
            bucket,
            equal,
            newest,
            available,
            to,
        ),
    decreases to - from,
{
    if from < to {
        assert(!visits(bucket.len() as int, equal, aged_slot(bucket.len() as int, newest, from)));
        lemma_skip_ages(bucket, equal, newest, available, from + 1, to);
    }
}

/// Walks a bucket's candidates newest to oldest, updating `found`.
///
/// `equal` is the tag mask, `newest` the slot of the newest position, and
/// `available` how many slots hold positions.
pub fn scan_bucket(
    backend: Backend,
    query: &MatchQuery,
    bucket: &[u32],
    equal: u32,
    newest: usize,
    available: usize,
    best_len: usize,
    found: &mut Found,
)
    requires
        query.wf(),
        0 < bucket@.len() <= 0x1_0000,
        newest < bucket@.len(),
        available <= bucket@.len(),
        3 <= best_len <= MAX_MATCH,
        old(found).sound(query),
    ensures
        *final(found) == judged_all(
            query,
            candidates_from(bucket@, equal, newest as int, available as int, 0),
            Best { len: best_len as u32, word: half_at(query.data@, query.here() + best_len - 3) },
            *old(found),
        ).1,
        final(found).sound(query),
        final(found).improves(*old(found)),
{
    let n: usize = bucket.len();
    let cur_ix_masked: usize = query.cur_ix & query.mask;
    let mut best = Best {
        len: best_len as u32,
        word: read_u32(query.data, cur_ix_masked + best_len - 3),
    };
    let ghost all = candidates_from(bucket@, equal, newest as int, available as int, 0);
    let ghost whole = judged_all(query, all, best, *found);
    let mut age: usize = 0;
    if n <= 32 {
        let mut ages: u64 = rotate_candidates(equal, n as u32, newest as u32, available as u32) as u64;
        loop
            invariant_except_break
                forall|i: int|
                    0 <= i < 64 ==> (#[trigger] math::word_bit(ages, i) <==> age <= i < available
                        && math::word_bit(equal as u64, aged_slot(n as int, newest as int, i))),
                judged_all(
                    query,
                    candidates_from(bucket@, equal, newest as int, available as int, age as int),
                    best,
                    *found,
                ) == whole,
            invariant
                query.wf(),
                n == bucket@.len(),
                0 < n <= 32,
                newest < n,
                available <= n,
                age <= available,
                3 <= best.len <= MAX_MATCH,
                found.sound(query),
                found.improves(*old(found)),
            ensures
                whole.1 == *found,
                found.sound(query),
                found.improves(*old(found)),
            decreases available - age,
        {
            if ages == 0 {
                proof {
                    assert forall|i: int| age <= i < available implies !#[trigger] visits(
                        n as int,
                        equal,
                        aged_slot(n as int, newest as int, i),
                    ) by {
                        math::lemma_empty_mask(i);
                        assert(!math::word_bit(ages, i));
                    }
                    lemma_skip_ages(
                        bucket@,
                        equal,
                        newest as int,
                        available as int,
                        age as int,
                        available as int,
                    );
                }
                break;
            }
            let next: u32 = ages.trailing_zeros();
            proof {
                vstd::std_specs::bits::axiom_u64_trailing_zeros(ages);
                assert(math::word_bit(ages, next as int));
                assert forall|i: int| age <= i < next implies !#[trigger] visits(
                    n as int,
                    equal,
                    aged_slot(n as int, newest as int, i),
                ) by {
                    let j: u64 = i as u64;
                    assert((ages >> j) & 1u64 == 0u64);
                    assert(!math::word_bit(ages, i));
                }
                lemma_skip_ages(
                    bucket@,
                    equal,
                    newest as int,
                    available as int,
                    age as int,
                    next as int,
                );
                math::lemma_mod_offset(newest as int, next as int, n as int);
                vstd::arithmetic::div_mod::lemma_small_mod(newest as nat, n as nat);
            }
            let slot: usize = if newest + next as usize >= n {
                newest + next as usize - n
            } else {
                newest + next as usize
            };
            let ghost rest = candidates_from(
                bucket@,
                equal,
                newest as int,
                available as int,
                next + 1,
            );
            assert((seq![bucket@[slot as int]] + rest).drop_first() =~= rest);
            let ghost left = ages;
            ages = ages & !(1u64 << next);
            proof {
                assert forall|i: int| 0 <= i < 64 implies (#[trigger] math::word_bit(ages, i) <==> next
                    + 1 <= i < available && math::word_bit(
                    equal as u64,
                    aged_slot(n as int, newest as int, i),
                )) by {
                    math::lemma_clear_bit(left, next as usize, i);
                    if i < next {
                        let j: u64 = i as u64;
                        assert((left >> j) & 1u64 == 0u64);
                    }
                }
            }
            age = next as usize + 1;
            if !consider(backend, query, bucket[slot], &mut best, found) {
                break;
            }
        }
    } else {
        while age < available
            invariant_except_break
                judged_all(
                    query,
                    candidates_from(bucket@, equal, newest as int, available as int, age as int),
                    best,
                    *found,
                ) == whole,
            invariant
                query.wf(),
                n == bucket@.len(),
                32 < n <= 0x1_0000,
                newest < n,
                available <= n,
                age <= available,
                3 <= best.len <= MAX_MATCH,
                found.sound(query),
                found.improves(*old(found)),
            ensures
                whole.1 == *found,
                found.sound(query),
                found.improves(*old(found)),
            decreases available - age,
        {
            proof {
                math::lemma_mod_offset(newest as int, age as int, n as int);
                vstd::arithmetic::div_mod::lemma_small_mod(newest as nat, n as nat);
            }
            let slot: usize = if newest + age >= n {
                newest + age - n
            } else {
                newest + age
            };
            let ghost rest = candidates_from(bucket@, equal, newest as int, available as int, age + 1);
            assert((seq![bucket@[slot as int]] + rest).drop_first() =~= rest);
            age += 1;
            if !consider(backend, query, bucket[slot], &mut best, found) {
                break;
            }
        }
    }
}

/// Places that agree in four bytes read the same word.
pub proof fn lemma_four_agree(data: Seq<u8>, left: int, right: int, limit: int)
    requires
        0 <= left,
        0 <= right,
        0 <= limit,
        agreement(data, left, right, limit) >= 4,
    ensures
        half_at(data, left) == half_at(data, right),
{
    let len = agreement(data, left, right, limit);
    match_len::lemma_match_length_exists(data.skip(left), data.skip(right), limit);
    assert(match_len::is_match_length(data.skip(left), data.skip(right), limit, len));
    assert forall|i: int| 0 <= i < 4 implies #[trigger] data[left + i] == data[right + i] by {
        assert(data.skip(left)[i] == data.skip(right)[i]);
    }
    assert(data[left + 0] == data[right + 0]);
    assert(data[left + 1] == data[right + 1]);
    assert(data[left + 2] == data[right + 2]);
    assert(data[left + 3] == data[right + 3]);
}

/// What is measured is how far two stretches agree: no byte before it differs, and the
/// next one does, unless the limit is reached.
pub proof fn lemma_agreement_is_longest(data: Seq<u8>, left: int, right: int, limit: int)
    requires
        0 <= left,
        0 <= right,
        0 <= limit,
    ensures
        ({
            let len = agreement(data, left, right, limit);
            &&& 0 <= len <= limit
            &&& match_len::agree(data.skip(left), data.skip(right), len)
            &&& len > 0 ==> left + len <= data.len() && right + len <= data.len()
            &&& left + limit <= data.len() && right + limit <= data.len()
                ==> match_len::is_match_length(data.skip(left), data.skip(right), limit, len)
        }),
        forall|n: int|
            left + limit <= data.len() && right + limit <= data.len() && 0 <= n <= limit
                && #[trigger] match_len::agree(data.skip(left), data.skip(right), n) ==> n
                <= agreement(data, left, right, limit),
{
    if left + limit <= data.len() && right + limit <= data.len() {
        match_len::lemma_match_length_exists(data.skip(left), data.skip(right), limit);
        let len = agreement(data, left, right, limit);
        assert forall|n: int|
            0 <= n <= limit && #[trigger] match_len::agree(
                data.skip(left),
                data.skip(right),
                n,
            ) implies n <= len by {
            if len < n {
                assert(data.skip(left)[len] == data.skip(right)[len]);
            }
        }
    }
}

/// A copy's score is a number, grows by a fixed amount with each byte, and loses a fixed
/// amount each time the distance doubles.
pub proof fn lemma_scores(len: int, distance: int)
    requires
        0 <= len <= MAX_MATCH,
        1 <= distance <= u32::MAX,
    ensures
        0 <= reference_score(len, distance) <= 1920 + 135 * len,
        reference_score(len + 1, distance) == reference_score(len, distance) + 135,
        reference_score(len, 2 * distance) == reference_score(len, distance) - 30,
        reference_score(len, 1) == 1920 + 135 * len,
        cached_score(len) == 1935 + 135 * len,
{
    fast_log::lemma_log2_exists(distance);
    let bits = distance_bits(distance);
    assert(fast_log::is_log2_floor(distance, bits));
    power2::lemma2_to64();
    if bits >= 32 {
        if bits > 32 {
            power2::lemma_pow2_strictly_increases(32, bits as nat);
        }
    }
    power2::lemma_pow2_unfold((bits + 1) as nat);
    power2::lemma_pow2_unfold((bits + 2) as nat);
    assert(fast_log::is_log2_floor(2 * distance, bits + 1));
    fast_log::lemma_log2_unique(2 * distance, bits + 1, distance_bits(2 * distance));
    assert(fast_log::is_log2_floor(1, 0));
    fast_log::lemma_log2_unique(1, 0, distance_bits(1));
}

impl<'a> MatchQuery<'a> {
    /// A distance leads to `n` bytes that the input repeats, and whose stretch fits the
    /// buffer.
    pub open spec fn repeats(&self, n: int, distance: int) -> bool {
        &&& self.genuine(n, distance)
        &&& self.here() + self.max_length <= self.data@.len()
        &&& self.back(distance) + self.max_length <= self.data@.len()
    }

    /// A distance leads to the same byte that stands some bytes ahead in the input.
    pub open spec fn same_ahead(&self, ahead: int, distance: int) -> bool {
        byte_at(self.data@, self.here() + ahead) == byte_at(
            self.data@,
            self.back(distance) + ahead,
        )
    }

    /// Bytes that are repeated are the same ahead.
    pub proof fn lemma_repeated_ahead(&self, n: int, distance: int, ahead: int)
        requires
            self.repeats(n, distance),
            0 <= ahead < n,
        ensures
            self.same_ahead(ahead, distance),
    {
        let left = self.data@.skip(self.back(distance));
        let right = self.data@.skip(self.here());
        assert(left[ahead] == right[ahead]);
    }

    /// What is measured at a distance that repeats bytes.
    pub proof fn lemma_measured(&self, n: int, distance: int)
        requires
            self.repeats(n, distance),
        ensures
            n <= agreement(
                self.data@,
                self.back(distance),
                self.here(),
                self.max_length as int,
            ) <= self.max_length,
    {
        lemma_agreement_is_longest(
            self.data@,
            self.back(distance),
            self.here(),
            self.max_length as int,
        );
    }
}

/// What the sixteen cached distances are charged: the two freshest least, and their
/// neighbours by how far they are off, in pairs.
pub proof fn lemma_penalties(index: int)
    requires
        0 <= index < 16,
    ensures
        cached_penalty(index) == if index < 2 {
            39int
        } else if index < 4 {
            43
        } else if index < 6 {
            39
        } else if index < 8 {
            47
        } else if index < 10 {
            49
        } else if index < 12 {
            41
        } else if index < 14 {
            51
        } else {
            45
        },
{
    let i: u64 = index as u64;
    assert({
        let charged = (0x1CA10u64 >> (i & 0xE)) & 0xE;
        &&& i < 2 ==> charged == 0
        &&& 2 <= i < 4 ==> charged == 4
        &&& 4 <= i < 6 ==> charged == 0
        &&& 6 <= i < 8 ==> charged == 8
        &&& 8 <= i < 10 ==> charged == 10
        &&& 10 <= i < 12 ==> charged == 2
        &&& 12 <= i < 14 ==> charged == 12
        &&& 14 <= i < 16 ==> charged == 6
    }) by (bit_vector);
}

} // verus!
