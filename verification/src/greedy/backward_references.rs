//! Greedy backward-reference search: which copies become commands.
//!
//! Which candidate wins, when a match is delayed by a byte, which positions are
//! recorded and which are skipped all show up in the emitted bytes, so the whole
//! decision order is stated here as a machine that one search answer after
//! another drives forward.
use vstd::arithmetic::power2;
use vstd::prelude::*;

use crate::backend::Backend;
use crate::greedy::matcher;
use crate::greedy::matcher::{DictionaryRequest, DictionarySource, Matcher, MatcherRuns};
use crate::greedy::params::GreedyParams;
use crate::greedy::search;
use crate::greedy::search::{
    initial_distance_cache, prepare_distance_cache, DistanceCache, MatchQuery, SearchResult,
    MAX_BUFFER, MAX_MATCH, MIN_SCORE,
};
use crate::shared::ringbuffer::{BlockSpan, Window};

verus! {

/// Score a delayed match has to beat the current one by.
pub const COST_DIFF_LAZY: usize = 175;

/// How many times in a row a match may be delayed by one byte.
pub const MAX_DELAYED_IN_A_ROW: usize = 4;

/// Bound on the positions a pass runs over.
pub const MAX_POSITION: usize = 0xD000_0000;

/// Bound on an attached dictionary.
pub const MAX_GAP: usize = 0x4000_0000;

/// One command: literals to insert, then bytes to copy.
#[derive(Copy, Clone, Debug, PartialEq, Eq, Structural)]
pub struct Command {
    /// Literals before the copy.
    pub insert_len: usize,
    /// Bytes the copy produces.
    pub copy_len: usize,
    /// How much the coded copy length differs from `copy_len`.
    pub len_code_delta: i32,
    /// The distance, as an intermediate code.
    pub distance_code: usize,
}

impl Command {
    /// Returns how many bytes the copy produces.
    pub fn copy_len(&self) -> (len: usize)
        ensures
            len == self.copy_len,
    {
        self.copy_len
    }
}

/// The short code of a distance near the last one.
pub open spec fn near_last(step: int) -> int {
    if step == 0 {
        0
    } else if step > 0 {
        3 + 2 * step
    } else {
        2 - 2 * step
    }
}

/// The short code of a distance near the one before the last.
pub open spec fn near_second(step: int) -> int {
    if step == 0 {
        1
    } else if step > 0 {
        9 + 2 * step
    } else {
        8 - 2 * step
    }
}

/// The intermediate code of a distance: a short code where the distance cache
/// has one, otherwise the distance spelled out.
pub open spec fn distance_code(distance: int, reach: int, cache: Seq<i32>) -> int {
    if distance > reach {
        distance + 15
    } else if distance == cache[0] {
        0
    } else if distance == cache[1] {
        1
    } else if -3 <= distance - cache[0] <= 3 {
        near_last(distance - cache[0])
    } else if -3 <= distance - cache[1] <= 3 {
        near_second(distance - cache[1])
    } else if distance == cache[2] {
        2
    } else if distance == cache[3] {
        3
    } else {
        distance + 15
    }
}

/// The distance an intermediate code stands for.
pub open spec fn decoded_distance(code: int, cache: Seq<i32>) -> int {
    if code < 4 {
        cache[code] as int
    } else if code < 10 {
        search::near_miss(cache[0], code - 4)
    } else if code < 16 {
        search::near_miss(cache[1], code - 10)
    } else {
        code - 15
    }
}

/// Every distance comes back from its code.
pub proof fn lemma_distance_code_decodes(distance: int, reach: int, cache: Seq<i32>)
    requires
        distance >= 1,
        cache.len() >= 4,
    ensures
        decoded_distance(distance_code(distance, reach, cache), cache) == distance,
        distance_code(distance, reach, cache) >= 0,
{
}

/// A short code is used wherever there is one: for a distance inside the reach that any of
/// the sixteen stands for, and for no other. The last distance gets the first of them.
pub proof fn lemma_short_code_is_used(distance: int, reach: int, cache: Seq<i32>, short: int)
    requires
        distance >= 1,
        cache.len() >= 4,
        0 <= short < 16,
    ensures
        distance <= reach && decoded_distance(short, cache) == distance ==> distance_code(
            distance,
            reach,
            cache,
        ) < 16,
        distance > reach ==> distance_code(distance, reach, cache) == distance + 15,
        distance_code(distance, reach, cache) == 0 <==> distance <= reach && distance == cache[0],
        distance_code(distance, reach, cache) >= 16 ==> distance_code(distance, reach, cache)
            == distance + 15,
{
}

/// Returns the intermediate distance code for `distance`.
///
/// The first sixteen codes are short codes relative to the distance cache: the
/// four remembered distances, and one, two or three either side of the two
/// freshest.
pub fn compute_distance_code(distance: usize, max_distance: usize, cache: &DistanceCache) -> (code:
    usize)
    requires
        distance + 15 <= usize::MAX,
    ensures
        code == distance_code(distance as int, max_distance as int, cache@),
{
    if distance <= max_distance {
        let last: i128 = cache[0] as i128;
        let second: i128 = cache[1] as i128;
        let wanted: i128 = distance as i128;
        if wanted == last {
            return 0;
        }
        if wanted == second {
            return 1;
        }
        if wanted - last >= -3 && wanted - last <= 3 {
            return if wanted > last {
                (3 + 2 * (wanted - last)) as usize
            } else {
                (2 + 2 * (last - wanted)) as usize
            };
        }
        if wanted - second >= -3 && wanted - second <= 3 {
            return if wanted > second {
                (9 + 2 * (wanted - second)) as usize
            } else {
                (8 + 2 * (second - wanted)) as usize
            };
        }
        if wanted == cache[2] as i128 {
            return 2;
        }
        if wanted == cache[3] as i128 {
            return 3;
        }
    }
    distance + 15
}

/// State the reference search carries between input blocks.
pub struct ReferenceState {
    /// The distances that have short codes, and those derived from them.
    pub dist_cache: DistanceCache,
    /// Literals produced but not yet attached to a command.
    pub last_insert_len: usize,
    /// Literals in the commands emitted for the current meta-block.
    pub num_literals: usize,
}

/// The remembered distances are real ones, with room for their neighbours.
pub open spec fn cache_ok(cache: Seq<i32>) -> bool {
    &&& cache.len() == 16
    &&& forall|i: int| 0 <= i < 4 ==> 1 <= #[trigger] cache[i] <= i32::MAX - 3
}

impl Default for ReferenceState {
    /// Returns the state a fresh stream starts from.
    fn default() -> (state: Self)
        ensures
            state.dist_cache@ == seq![4i32, 11, 15, 16, 0, 0, 0, 0, 0, 0, 0, 0, 0, 0, 0, 0],
            cache_ok(state.dist_cache@),
            state.last_insert_len == 0,
            state.num_literals == 0,
    {
        ReferenceState {
            dist_cache: initial_distance_cache(),
            last_insert_len: 0,
            num_literals: 0,
        }
    }
}

/// What stays the same throughout one pass over a stretch of input.
pub struct Scene<'a> {
    /// The ring buffer.
    pub data: &'a [u8],
    /// The ring buffer cut to the window.
    pub window: &'a [u8],
    /// Mask that turns a position into a buffer index.
    pub mask: usize,
    /// Where the stretch ends.
    pub end: usize,
    /// The longest backward distance.
    pub limit: usize,
    /// How much of the stream precedes the first position.
    pub offset: usize,
    /// How much attached dictionary lies past the window.
    pub gap: usize,
    /// The longest distance the alphabet can express.
    pub max_distance: usize,
    /// Bytes a search needs ahead of it.
    pub hash_length: usize,
    /// Bytes a store needs ahead of it.
    pub lookahead: usize,
    /// How many cached distances a search probes.
    pub last_distances: usize,
    /// Whether a delayed search starts over.
    pub extensive: bool,
    /// Whether every distance is spelled out.
    pub independent: bool,
    /// The instructions a search uses.
    pub backend: Backend,
}

/// Where a pass stands: what its answers so far have led to.
pub struct Scan {
    /// The next position to search.
    pub position: int,
    /// Literals waiting for a command.
    pub insert: int,
    /// Past this position the scan strides.
    pub sparse_from: int,
    /// The distance cache.
    pub cache: Seq<i32>,
    /// Literals in the commands.
    pub literals: int,
    /// The commands made.
    pub commands: Seq<Command>,
    /// The positions recorded, in order.
    pub recorded: Seq<int>,
    /// The match being delayed and how often it was.
    pub lazy: Option<(SearchResult, int)>,
}

impl<'a> Scene<'a> {
    /// The scene is one an encoder sets up.
    pub open spec fn wf(&self) -> bool {
        &&& self.data@.len() <= MAX_BUFFER
        &&& self.window@.len() <= self.data@.len()
        &&& self.window@ == self.data@.take(self.window@.len() as int)
        &&& self.end <= MAX_POSITION
        &&& self.limit <= 0x3FFF_FFF0
        &&& self.end + self.offset <= usize::MAX
        &&& self.gap < MAX_GAP
        &&& self.max_distance <= 0x7FFF_FFFF
        &&& self.hash_length == 4 || self.hash_length == 8
        &&& self.lookahead == 4 || self.lookahead == 8
    }

    /// A position of the stretch lies in the buffer.
    pub open spec fn covers(&self, at: int) -> bool {
        &&& 0 <= at < self.end
        &&& self.end - at <= MAX_MATCH
        &&& ((at as usize) & self.mask) <= self.data@.len()
    }

    /// How far back a copy at a position reaches inside the window.
    pub open spec fn reach(&self, at: int) -> int {
        if at < self.limit {
            at
        } else {
            self.limit as int
        }
    }

    /// Where the dictionaries begin at a position: past all of the stream that the window
    /// can hold, also where that is not at hand.
    pub open spec fn horizon(&self, at: int) -> int {
        if at + self.offset < self.limit {
            at + self.offset
        } else {
            self.limit as int
        }
    }

    /// What is asked at a position.
    pub open spec fn query(&self, cache: &'a DistanceCache, at: int) -> MatchQuery<'a> {
        MatchQuery {
            data: self.data,
            window: self.window,
            mask: self.mask,
            cache,
            cur_ix: at as usize,
            max_length: (self.end - at) as usize,
            max_backward: self.reach(at) as usize,
            position_offset: self.offset,
            dictionary_limit: self.limit,
            gap: self.gap,
            max_distance: self.max_distance,
        }
    }

    /// A reference into the attached dictionary.
    pub open spec fn in_prefix(&self, at: int, result: SearchResult) -> bool {
        &&& self.horizon(at) < result.distance <= self.horizon(at) + self.gap
        &&& result.distance <= self.max_distance
        &&& 1 <= result.len <= self.end - at
    }

    /// What the attached dictionary's answer does to a result.
    pub open spec fn with_prefix(
        &self,
        at: int,
        out: SearchResult,
        word: Option<SearchResult>,
    ) -> SearchResult {
        match word {
            Some(found) => if self.gap > 0 && self.in_prefix(at, found) && found.score > out.score {
                found
            } else {
                out
            },
            None => out,
        }
    }

    /// The attached dictionary, asked for what starts at a position, can answer
    /// with a word that turns one result into another; without one nothing changes.
    pub open spec fn prefixed<P: DictionarySource>(
        &self,
        at: int,
        out: SearchResult,
        word: Option<SearchResult>,
        to: SearchResult,
    ) -> bool {
        let request = DictionaryRequest {
            max_length: (self.end - at) as usize,
            distance: self.horizon(at) as usize,
            max_distance: self.max_distance,
            score: out.score,
            shallow: false,
        };
        &&& to == self.with_prefix(at, out, word)
        &&& self.gap > 0 ==> P::gives(
            self.data@.skip(((at as usize) & self.mask) as int),
            request,
            word,
        )
    }

    /// A result a command may be made of: bytes the window or a dictionary holds.
    pub open spec fn copies(&self, cache: &'a DistanceCache, at: int, result: SearchResult) -> bool {
        self.query(cache, at).usable(result) || self.in_prefix(at, result)
    }

    /// Where the next search looks: one byte further while a match is delayed.
    pub open spec fn asks_at(&self, scan: Scan) -> int {
        scan.position + if scan.lazy is Some {
            1int
        } else {
            0int
        }
    }

    /// What the next search starts from: nothing, or, unless the search is
    /// extensive, the length of the match being delayed.
    pub open spec fn asks_from(&self, scan: Scan) -> SearchResult {
        SearchResult {
            len: match scan.lazy {
                None => 0,
                Some((current, _)) => if self.extensive {
                    0
                } else if current.len - 1 < self.end - scan.position - 1 {
                    (current.len - 1) as usize
                } else {
                    (self.end - scan.position - 1) as usize
                },
            },
            distance: 0,
            score: MIN_SCORE,
            len_code_delta: 0,
        }
    }

    /// A finder that recorded the scan's positions may give this answer.
    pub open spec fn answered_by<M: Matcher, D: DictionarySource, P: DictionarySource>(
        &self,
        start: M,
        finder: M,
        cache: DistanceCache,
        found: SearchResult,
        word: Option<SearchResult>,
        scan: Scan,
        answer: SearchResult,
    ) -> bool {
        let at = self.asks_at(scan);
        let from = self.asks_from(scan);
        &&& matcher::recorded_all(&start, &finder, self.data@, self.mask, scan.recorded)
        &&& cache@ == scan.cache
        &&& finder.answers(matcher::words_of::<D>(), self.backend.of(), &self.query(&cache, at), from, found)
        &&& self.prefixed::<P>(at, found, word, answer)
        &&& answer.score > MIN_SCORE ==> self.copies(&cache, at, answer)
    }

    /// An answer the search may give where the scan stands.
    pub open spec fn answered<M: Matcher, D: DictionarySource, P: DictionarySource>(
        &self,
        start: M,
        scan: Scan,
        answer: SearchResult,
    ) -> bool {
        exists|finder: M, cache: DistanceCache, found: SearchResult, word: Option<SearchResult>|
            #[trigger] self.answered_by::<M, D, P>(start, finder, cache, found, word, scan, answer)
    }

    /// Strides over a stretch, recording every position it lands on.
    pub open spec fn strided(&self, scan: Scan, until: int, stride: int) -> Scan
        decreases
                if until > scan.position {
                    until - scan.position
                } else {
                    0
                },
    {
        if stride <= 0 || scan.position >= until {
            scan
        } else {
            self.strided(
                Scan {
                    position: scan.position + stride,
                    insert: scan.insert + stride,
                    recorded: scan.recorded.push(scan.position),
                    ..scan
                },
                until,
                stride,
            )
        }
    }

    /// How far a scan strides at a time: four once nothing matched for very long.
    pub open spec fn stride(&self, scan: Scan) -> int {
        if scan.position > scan.sparse_from + 4 * 64 {
            4
        } else {
            2
        }
    }

    /// Where a striding scan stops: after four strides, or before the end.
    pub open spec fn stride_end(&self, scan: Scan) -> int {
        let stride = self.stride(scan);
        let margin = if self.lookahead - 1 < stride {
            stride
        } else {
            self.lookahead - 1
        };
        let last = if self.end < margin {
            0
        } else {
            self.end - margin
        };
        if scan.position + 4 * stride < last {
            scan.position + 4 * stride
        } else {
            last
        }
    }

    /// A byte that no match starts at becomes a literal; after a long spree of
    /// literals the scan strides.
    pub open spec fn missed(&self, scan: Scan) -> Scan {
        let passed = Scan { position: scan.position + 1, insert: scan.insert + 1, ..scan };
        if passed.position <= passed.sparse_from {
            passed
        } else {
            self.strided(passed, self.stride_end(passed), self.stride(passed))
        }
    }

    /// The code a distance gets at a position.
    pub open spec fn code_at(&self, at: int, distance: int, cache: Seq<i32>) -> int {
        if self.independent {
            distance + 15
        } else {
            distance_code(distance, self.horizon(at) + self.gap, cache)
        }
    }

    /// The cache after a command: a distance that was not the last one moves to
    /// the front, unless it names a dictionary word.
    pub open spec fn cache_after(&self, at: int, distance: int, cache: Seq<i32>) -> Seq<i32> {
        if distance <= self.horizon(at) + self.gap && self.code_at(at, distance, cache) > 0 {
            derived(
                seq![distance as i32, cache[0], cache[1], cache[2]] + cache.skip(4),
                self.last_distances as int,
            )
        } else {
            cache
        }
    }

    /// The positions a match covers that are worth recording: all but the first
    /// two, and of a short-distance repeat only the last few.
    pub open spec fn covered_stretch(&self, start: int, at: int, len: int, distance: int) -> Seq<int> {
        let store_end = if self.end - start >= self.lookahead {
            self.end - self.lookahead + 1
        } else {
            start
        };
        let to = if at + len < store_end {
            at + len
        } else {
            store_end
        };
        let late = at + len - 4 * distance;
        let from = if distance < len / 4 {
            let later = if at + 2 < late {
                late
            } else {
                at + 2
            };
            if later < to {
                later
            } else {
                to
            }
        } else {
            at + 2
        };
        matcher::stretch(from, to)
    }

    /// A match becomes a command.
    pub open spec fn emitted(&self, start: int, scan: Scan, result: SearchResult) -> Scan {
        Scan {
            position: scan.position + result.len,
            insert: 0,
            sparse_from: scan.position + 2 * result.len + 64,
            cache: self.cache_after(scan.position, result.distance as int, scan.cache),
            literals: scan.literals + scan.insert,
            commands: scan.commands.push(
                Command {
                    insert_len: scan.insert as usize,
                    copy_len: result.len,
                    len_code_delta: result.len_code_delta,
                    distance_code: self.code_at(
                        scan.position,
                        result.distance as int,
                        scan.cache,
                    ) as usize,
                },
            ),
            recorded: scan.recorded + self.covered_stretch(
                start,
                scan.position,
                result.len as int,
                result.distance as int,
            ),
            lazy: None,
        }
    }

    /// Where a scan stands after one more answer.
    ///
    /// A match is delayed by a byte for a clearly better one there, up to four
    /// times in a row.
    pub open spec fn next(&self, start: int, scan: Scan, answer: SearchResult) -> Scan {
        let looked = Scan { recorded: scan.recorded.push(self.asks_at(scan)), ..scan };
        match scan.lazy {
            None => if answer.score <= MIN_SCORE {
                self.missed(looked)
            } else {
                Scan { lazy: Some((answer, 0int)), ..looked }
            },
            Some((current, delayed)) => if answer.score >= current.score + COST_DIFF_LAZY {
                let moved = Scan { position: scan.position + 1, insert: scan.insert + 1, ..looked };
                if delayed + 1 < MAX_DELAYED_IN_A_ROW && moved.position + self.hash_length
                    < self.end {
                    Scan { lazy: Some((answer, delayed + 1)), ..moved }
                } else {
                    self.emitted(start, moved, answer)
                }
            } else {
                self.emitted(start, looked, current)
            },
        }
    }

    /// Where a list of answers leads.
    pub open spec fn run(&self, first: Scan, answers: Seq<SearchResult>) -> Scan
        decreases answers.len(),
    {
        if answers.len() == 0 {
            first
        } else {
            self.next(first.position, self.run(first, answers.drop_last()), answers.last())
        }
    }

    /// Each answer is one the search may give where the scan then stands.
    pub open spec fn answers_hold<M: Matcher, D: DictionarySource, P: DictionarySource>(
        &self,
        finder: M,
        first: Scan,
        answers: Seq<SearchResult>,
    ) -> bool
        decreases answers.len(),
    {
        answers.len() > 0 ==> {
            &&& self.answers_hold::<M, D, P>(finder, first, answers.drop_last())
            &&& self.answered::<M, D, P>(finder, self.run(first, answers.drop_last()), answers.last())
            &&& self.unfinished(self.run(first, answers.drop_last()))
        }
    }

    /// A scan that still has a search to make.
    pub open spec fn unfinished(&self, scan: Scan) -> bool {
        scan.lazy is Some || scan.position + self.hash_length < self.end
    }

    /// One more answer takes the run one step further.
    proof fn lemma_run_push<M: Matcher, D: DictionarySource, P: DictionarySource>(
        &self,
        finder: M,
        first: Scan,
        answers: Seq<SearchResult>,
        answer: SearchResult,
    )
        requires
            self.answers_hold::<M, D, P>(finder, first, answers),
            self.answered::<M, D, P>(finder, self.run(first, answers), answer),
            self.unfinished(self.run(first, answers)),
        ensures
            self.answers_hold::<M, D, P>(finder, first, answers.push(answer)),
            self.run(first, answers.push(answer)) == self.next(
                first.position,
                self.run(first, answers),
                answer,
            ),
    {
        assert(answers.push(answer).drop_last() =~= answers);
    }

    /// A search where the scan stands takes the run one step further, and what the
    /// finder then holds is recorded. The finders are the one at the start, and those
    /// before and after the search.
    proof fn lemma_searched<M: Matcher, D: DictionarySource, P: DictionarySource>(
        &self,
        finders: (M, M, M),
        cache: DistanceCache,
        first: Scan,
        answers: Seq<SearchResult>,
        scan: Scan,
        answer: SearchResult,
    )
        requires
            scan == self.run(first, answers),
            self.answers_hold::<M, D, P>(finders.0, first, answers),
            self.unfinished(scan),
            cache@ == scan.cache,
            matcher::recorded_all(
                &finders.0,
                &finders.1,
                self.data@,
                self.mask,
                scan.recorded,
            ),
            finders.2.follows(&finders.1, self.data@, self.mask, self.asks_at(scan)),
            exists|found: SearchResult, word: Option<SearchResult>|
                finders.1.answers(
                    matcher::words_of::<D>(),
                    self.backend.of(),
                    &self.query(&cache, self.asks_at(scan)),
                    self.asks_from(scan),
                    found,
                ) && #[trigger] self.prefixed::<P>(self.asks_at(scan), found, word, answer),
            answer.score > MIN_SCORE ==> self.copies(&cache, self.asks_at(scan), answer),
        ensures
            self.answers_hold::<M, D, P>(finders.0, first, answers.push(answer)),
            self.run(first, answers.push(answer)) == self.next(first.position, scan, answer),
            matcher::recorded_all(
                &finders.0,
                &finders.2,
                self.data@,
                self.mask,
                scan.recorded.push(self.asks_at(scan)),
            ),
    {
        let at = self.asks_at(scan);
        let (found, word) = choose|found: SearchResult, word: Option<SearchResult>|
            finders.1.answers(
                matcher::words_of::<D>(),
                self.backend.of(),
                &self.query(&cache, at),
                self.asks_from(scan),
                found,
            ) && #[trigger] self.prefixed::<P>(at, found, word, answer);
        assert(self.answered_by::<M, D, P>(
            finders.0,
            finders.1,
            cache,
            found,
            word,
            scan,
            answer,
        ));
        self.lemma_run_push::<M, D, P>(finders.0, first, answers, answer);
        matcher::lemma_recorded_push(
            &finders.0,
            &finders.1,
            &finders.2,
            self.data@,
            self.mask,
            scan.recorded,
            at,
        );
    }
}

/// A cache with its derived entries filled in.
pub open spec fn derived(cache: Seq<i32>, num_distances: int) -> Seq<i32> {
    Seq::new(
        cache.len(),
        |i: int|
            if 4 <= i < 10 && num_distances > 4 {
                search::near_miss(cache[0], i - 4) as i32
            } else if 10 <= i && num_distances > 10 {
                search::near_miss(cache[1], i - 10) as i32
            } else {
                cache[i]
            },
    )
}

/// How many bytes a list of commands accounts for.
pub open spec fn accounted(commands: Seq<Command>) -> int
    decreases commands.len(),
{
    if commands.len() == 0 {
        0
    } else {
        accounted(commands.drop_last()) + commands.last().insert_len + commands.last().copy_len
    }
}

/// How many literals a list of commands inserts.
pub open spec fn inserted(commands: Seq<Command>) -> int
    decreases commands.len(),
{
    if commands.len() == 0 {
        0
    } else {
        inserted(commands.drop_last()) + commands.last().insert_len
    }
}

impl<'a> Scene<'a> {
    /// The distance a command's code stands for.
    pub open spec fn distance_of(&self, command: Command, cache: Seq<i32>) -> int {
        if self.independent {
            command.distance_code - 15
        } else {
            decoded_distance(command.distance_code as int, cache)
        }
    }

    /// A copy reproduces the input: it repeats bytes of the window, or it reaches
    /// past the window into a dictionary.
    pub open spec fn reproduces(&self, at: int, len: int, distance: int) -> bool {
        let here = ((at as usize) & self.mask) as int;
        let back = (((at - distance) as usize) & self.mask) as int;
        let repeats = crate::shared::match_len::agree(
            self.data@.skip(back),
            self.data@.skip(here),
            len,
        ) && back + len <= self.data@.len() && here + len <= self.data@.len();
        &&& 1 <= len <= self.end - at
        &&& distance >= 1
        &&& distance <= self.reach(at) ==> repeats
        &&& distance > self.reach(at) ==> distance > self.horizon(at) && (distance
            <= self.max_distance || self.gap > 0)
    }

    /// Where a list of commands leads, and the cache it leaves.
    pub open spec fn replayed(&self, first: int, cache: Seq<i32>, commands: Seq<Command>) -> (
        int,
        Seq<i32>,
    )
        decreases commands.len(),
    {
        if commands.len() == 0 {
            (first, cache)
        } else {
            let (position, held) = self.replayed(first, cache, commands.drop_last());
            let command = commands.last();
            let at = position + command.insert_len;
            (
                at + command.copy_len,
                self.cache_after(at, self.distance_of(command, held), held),
            )
        }
    }

    /// Every command of a list, read back in order, reproduces the input.
    pub open spec fn faithful(&self, first: int, cache: Seq<i32>, commands: Seq<Command>) -> bool
        decreases commands.len(),
    {
        commands.len() > 0 ==> {
            let (position, held) = self.replayed(first, cache, commands.drop_last());
            let command = commands.last();
            &&& self.faithful(first, cache, commands.drop_last())
            &&& self.reproduces(
                position + command.insert_len,
                command.copy_len as int,
                self.distance_of(command, held),
            )
        }
    }

    /// Returns where the dictionaries begin at a position.
    fn dictionary_start(&self, at: usize) -> (start: usize)
        requires
            at + self.offset <= usize::MAX,
        ensures
            start == self.horizon(at as int),
    {
        let start: usize = at + self.offset;
        if start < self.limit {
            start
        } else {
            self.limit
        }
    }

    /// Searches at a position, then asks the attached dictionary.
    fn search_at<M: Matcher, D: DictionarySource, P: DictionarySource>(
        &self,
        finder: &mut M,
        dictionary: &mut D,
        prefix: &mut P,
        cache: &'a DistanceCache,
        at: usize,
        from: SearchResult,
    ) -> (answer: SearchResult)
        requires
            self.wf(),
            self.covers(at as int),
            old(finder).wf(),
            old(finder).admits(at as int),
            from.len <= MAX_MATCH,
            from.score == MIN_SCORE,
        ensures
            final(finder).wf(),
            final(finder).follows(old(finder), self.data@, self.mask, at as int),
            forall|i: int| #[trigger] final(finder).admits(i) == old(finder).admits(i),
            exists|found: SearchResult, word: Option<SearchResult>|
                old(finder).answers(
                    matcher::words_of::<D>(),
                    self.backend.of(),
                    &self.query(cache, at as int),
                    from,
                    found,
                ) && #[trigger] self.prefixed::<P>(at as int, found, word, answer),
            answer.score >= MIN_SCORE,
            answer.score > MIN_SCORE ==> self.copies(cache, at as int, answer),
    {
        let reach: usize = if at < self.limit {
            at
        } else {
            self.limit
        };
        let query = MatchQuery {
            data: self.data,
            window: self.window,
            mask: self.mask,
            cache,
            cur_ix: at,
            max_length: self.end - at,
            max_backward: reach,
            position_offset: self.offset,
            dictionary_limit: self.limit,
            gap: self.gap,
            max_distance: self.max_distance,
        };
        assert(query == self.query(cache, at as int));
        let mut found: SearchResult = from;
        finder.find_longest_match(self.backend, dictionary, &query, &mut found);
        let ghost searched = found;
        if self.gap > 0 {
            let here: usize = at & self.mask;
            let beyond: usize = self.dictionary_start(at);
            let request = DictionaryRequest {
                max_length: self.end - at,
                distance: beyond,
                max_distance: self.max_distance,
                score: found.score,
                shallow: false,
            };
            let word: Option<SearchResult> = prefix.lookup(
                &self.data[here..self.data.len()],
                request,
            );
            if let Some(candidate) = word {
                if candidate.distance > beyond && candidate.distance - beyond <= self.gap
                    && candidate.distance <= self.max_distance && candidate.len >= 1 && candidate.len
                    <= self.end - at && candidate.score > found.score {
                    found = candidate;
                }
            }
            proof {
                assert(self.data@.subrange(here as int, self.data@.len() as int) =~= self.data@.skip(
                    here as int,
                ));
                assert(self.prefixed::<P>(at as int, searched, word, found));
            }
        } else {
            assert(self.prefixed::<P>(at as int, searched, None, found));
        }
        found
    }

    /// Strides over a stretch, recording every position it lands on.
    fn stride_over<M: Matcher>(
        &self,
        finder: &mut M,
        position: usize,
        insert: usize,
        until: usize,
        stride: usize,
        Ghost(scan): Ghost<Scan>,
    ) -> (landed: (usize, usize))
        requires
            self.wf(),
            old(finder).wf(),
            stride == 2 || stride == 4,
            until + stride <= self.end || until <= position,
            position <= self.end,
            insert + (self.end - position) <= usize::MAX,
            forall|i: int| position <= i < self.end ==> #[trigger] old(finder).admits(i),
            scan.position == position,
            scan.insert == insert,
        ensures
            final(finder).wf(),
            forall|i: int| #[trigger] final(finder).admits(i) == old(finder).admits(i),
            position <= landed.0 <= self.end,
            landed.0 - position == landed.1 - insert,
            ({
                let after = self.strided(scan, until as int, stride as int);
                &&& after.position == landed.0
                &&& after.insert == landed.1
                &&& after == (Scan {
                    position: landed.0 as int,
                    insert: landed.1 as int,
                    recorded: after.recorded,
                    ..scan
                })
                &&& forall|start: M|
                    #[trigger] matcher::recorded_all(
                        &start,
                        old(finder),
                        self.data@,
                        self.mask,
                        scan.recorded,
                    ) ==> matcher::recorded_all(
                        &start,
                        final(finder),
                        self.data@,
                        self.mask,
                        after.recorded,
                    )
            }),
    {
        let mut at: usize = position;
        let mut pending: usize = insert;
        let ghost mut current = scan;
        let ghost whole = self.strided(scan, until as int, stride as int);
        while at < until
            invariant
                self.wf(),
                finder.wf(),
                stride == 2 || stride == 4,
                until + stride <= self.end || until <= position,
                position <= at <= self.end,
                insert + (self.end - position) <= usize::MAX,
                at - position == pending - insert,
                forall|i: int| #[trigger] finder.admits(i) == old(finder).admits(i),
                forall|i: int| position <= i < self.end ==> #[trigger] old(finder).admits(i),
                current.position == at,
                current.insert == pending,
                current == (Scan {
                    position: at as int,
                    insert: pending as int,
                    recorded: current.recorded,
                    ..scan
                }),
                self.strided(current, until as int, stride as int) == whole,
                forall|start: M|
                    #[trigger] matcher::recorded_all(
                        &start,
                        old(finder),
                        self.data@,
                        self.mask,
                        scan.recorded,
                    ) ==> matcher::recorded_all(
                        &start,
                        finder,
                        self.data@,
                        self.mask,
                        current.recorded,
                    ),
            decreases self.end - at,
        {
            let ghost before = *finder;
            assert(old(finder).admits(at as int));
            finder.store(self.data, self.mask, at);
            proof {
                let earlier = current.recorded;
                current = Scan {
                    position: at + stride,
                    insert: pending + stride,
                    recorded: current.recorded.push(at as int),
                    ..current
                };
                assert forall|start: M|
                    #[trigger] matcher::recorded_all(
                        &start,
                        old(finder),
                        self.data@,
                        self.mask,
                        scan.recorded,
                    ) implies matcher::recorded_all(
                    &start,
                    finder,
                    self.data@,
                    self.mask,
                    current.recorded,
                ) by {
                    matcher::lemma_recorded_push(
                        &start,
                        &before,
                        finder,
                        self.data@,
                        self.mask,
                        earlier,
                        at as int,
                    );
                }
            }
            at += stride;
            pending += stride;
        }
        (at, pending)
    }
}

/// The remembered distances lie within the window and the attached dictionary.
pub open spec fn cache_within(cache: Seq<i32>, bound: int) -> bool {
    cache_ok(cache) && forall|i: int| 0 <= i < 4 ==> #[trigger] cache[i] <= bound
}

impl<'a> Scene<'a> {
    /// Turns a match into a command and records the positions it covers.
    #[verifier::rlimit(30)]
    fn emit<M: Matcher>(
        &self,
        finder: &mut M,
        start: usize,
        position: usize,
        insert: usize,
        result: SearchResult,
        state: &mut ReferenceState,
        commands: &mut Vec<Command>,
        Ghost(scan): Ghost<Scan>,
    )
        requires
            self.wf(),
            self.covers(position as int),
            start <= position,
            old(finder).wf(),
            forall|i: int| start <= i < self.end ==> #[trigger] old(finder).admits(i),
            cache_within(old(state).dist_cache@, self.limit + self.gap),
            self.copies(&old(state).dist_cache, position as int, result),
            old(state).num_literals + insert <= usize::MAX,
            scan.position == position,
            scan.insert == insert,
            scan.cache == old(state).dist_cache@,
            scan.literals == old(state).num_literals,
            scan.commands == old(commands)@,
        ensures
            final(finder).wf(),
            forall|i: int| #[trigger] final(finder).admits(i) == old(finder).admits(i),
            ({
                let after = self.emitted(start as int, scan, result);
                &&& final(state).dist_cache@ == after.cache
                &&& final(state).num_literals == after.literals
                &&& final(commands)@ == after.commands
                &&& forall|first: M|
                    #[trigger] matcher::recorded_all(
                        &first,
                        old(finder),
                        self.data@,
                        self.mask,
                        scan.recorded,
                    ) ==> matcher::recorded_all(
                        &first,
                        final(finder),
                        self.data@,
                        self.mask,
                        after.recorded,
                    )
            }),
            cache_within(final(state).dist_cache@, self.limit + self.gap),
            final(state).last_insert_len == old(state).last_insert_len,
            1 <= result.len <= self.end - position,
            self.reproduces(position as int, result.len as int, result.distance as int),
            self.distance_of(final(commands)@.last(), scan.cache) == result.distance,
    {
        let beyond: usize = self.dictionary_start(position);
        let ghost cache0 = state.dist_cache@;
        proof {
            assert(result.distance <= 0x7FFF_FFFF && result.distance >= 1) by {
                assert(cache0[0] <= self.limit + self.gap);
            }
            lemma_distance_code_decodes(result.distance as int, beyond + self.gap, cache0);
        }
        let distance_code: usize = if self.independent {
            result.distance + 15
        } else {
            compute_distance_code(result.distance, beyond + self.gap, &state.dist_cache)
        };
        if result.distance <= beyond + self.gap && distance_code > 0 {
            let mut cache: DistanceCache = state.dist_cache;
            cache[3] = cache[2];
            cache[2] = cache[1];
            cache[1] = cache[0];
            cache[0] = result.distance as i32;
            let ghost shifted = cache@;
            proof {
                assert(cache0[0] >= 1 && cache0[0] <= i32::MAX - 3);
                assert(shifted =~= seq![
                    result.distance as i32,
                    cache0[0],
                    cache0[1],
                    cache0[2],
                ] + cache0.skip(4));
            }
            prepare_distance_cache(&mut cache, self.last_distances);
            proof {
                assert(cache@ =~= derived(shifted, self.last_distances as int));
                assert(cache0[1] >= 1 && cache0[1] <= i32::MAX - 3);
                assert(cache0[2] >= 1 && cache0[2] <= i32::MAX - 3);
                assert forall|i: int| 0 <= i < 4 implies 1 <= #[trigger] cache@[i] <= i32::MAX - 3
                    && cache@[i] <= self.limit + self.gap by {
                    assert(cache@[i] == shifted[i]);
                    if i > 0 {
                        assert(shifted[i] == cache0[i - 1]);
                    }
                }
            }
            state.dist_cache = cache;
        }
        commands.push(
            Command {
                insert_len: insert,
                copy_len: result.len,
                len_code_delta: result.len_code_delta,
                distance_code,
            },
        );
        state.num_literals = state.num_literals + insert;
        // Record the positions the match covered, skipping the ones a run-length
        // repeat would only poison the table with.
        let store_end: usize = if self.end - start >= self.lookahead {
            self.end - self.lookahead + 1
        } else {
            start
        };
        let range_end: usize = if position + result.len < store_end {
            position + result.len
        } else {
            store_end
        };
        let mut range_start: usize = position + 2;
        if result.distance < result.len / 4 {
            let late: usize = position + result.len - 4 * result.distance;
            let later: usize = if range_start < late {
                late
            } else {
                range_start
            };
            range_start = if later < range_end {
                later
            } else {
                range_end
            };
        }
        let ghost before = *finder;
        finder.store_range(self.data, self.mask, range_start, range_end);
        proof {
            let covered = self.covered_stretch(
                start as int,
                position as int,
                result.len as int,
                result.distance as int,
            );
            assert(covered =~= matcher::stretch(range_start as int, range_end as int));
            assert forall|first: M|
                #[trigger] matcher::recorded_all(
                    &first,
                    old(finder),
                    self.data@,
                    self.mask,
                    scan.recorded,
                ) implies matcher::recorded_all(
                &first,
                finder,
                self.data@,
                self.mask,
                scan.recorded + covered,
            ) by {
                matcher::lemma_recorded_append(
                    &first,
                    &before,
                    finder,
                    self.data@,
                    self.mask,
                    scan.recorded,
                    covered,
                );
            }
        }
    }
}

/// Where a pass over a stretch begins.
pub open spec fn first_scan(state: ReferenceState, cache: Seq<i32>, commands: Seq<Command>, position: int) -> Scan {
    Scan {
        position,
        insert: state.last_insert_len as int,
        sparse_from: position + 64,
        cache,
        literals: state.num_literals as int,
        commands,
        recorded: Seq::empty(),
        lazy: None,
    }
}

/// What a pass over a stretch looks at.
pub open spec fn scene_of<'a, M: Matcher>(
    scene: Scene<'a>,
    finder: &M,
    backend: Backend,
    params: &GreedyParams,
    window: Window<'a>,
    span: BlockSpan,
    gap: usize,
    independent: bool,
) -> bool {
    &&& scene.wf()
    &&& scene.data == window.data
    &&& scene.mask == window.mask
    &&& scene.window@ == if window.mask < window.data@.len() {
        window.data@.take(window.mask + 1)
    } else {
        window.data@
    }
    &&& scene.end == span.position + span.bytes
    &&& scene.limit == power2::pow2(params.lgwin as nat) - 16
    &&& scene.offset == params.stream_offset
    &&& scene.gap == gap
    &&& scene.max_distance == params.dist.max_distance
    &&& scene.extensive == (params.quality.of() >= 5)
    &&& scene.independent == independent
    &&& scene.backend == backend
    &&& scene.hash_length == finder.hashed()
    &&& scene.lookahead == finder.looks_ahead()
    &&& scene.last_distances == finder.probes()
}

/// A pass ended where its answers lead: nothing is left to search, and the rest
/// of the stretch waits for a command.
pub open spec fn made_by<M: Matcher, D: DictionarySource, P: DictionarySource>(
    scene: Scene,
    before: M,
    first: Scan,
    answers: Seq<SearchResult>,
    after: M,
    state: ReferenceState,
    commands: Seq<Command>,
) -> bool {
    let last = scene.run(first, answers);
    &&& scene.answers_hold::<M, D, P>(before, first, answers)
    &&& !scene.unfinished(last)
    &&& commands == last.commands
    &&& state.dist_cache@ == last.cache
    &&& state.num_literals == last.literals
    &&& state.last_insert_len == last.insert + (scene.end - last.position)
    &&& matcher::recorded_all(&before, &after, scene.data@, scene.mask, last.recorded)
}

/// Nothing is asked of a scan that has no search to make.
proof fn lemma_nothing_asked<M: Matcher, D: DictionarySource, P: DictionarySource>(
    scene: Scene,
    finder: M,
    first: Scan,
    answers: Seq<SearchResult>,
)
    requires
        !scene.unfinished(first),
        scene.answers_hold::<M, D, P>(finder, first, answers),
    ensures
        answers.len() == 0,
    decreases answers.len(),
{
    if answers.len() > 0 {
        lemma_nothing_asked::<M, D, P>(scene, finder, first, answers.drop_last());
    }
}

/// A stretch too short to search makes no command: all of it waits, and the four
/// remembered distances stay as they were.
pub proof fn lemma_too_short_to_search<M: Matcher, D: DictionarySource, P: DictionarySource>(
    scene: Scene,
    before: M,
    held: ReferenceState,
    commands: Seq<Command>,
    position: int,
    answers: Seq<SearchResult>,
    after: M,
    state: ReferenceState,
    made: Seq<Command>,
)
    requires
        scene.end <= position + scene.hash_length,
        made_by::<M, D, P>(
            scene,
            before,
            first_scan(
                held,
                derived(held.dist_cache@, scene.last_distances as int),
                commands,
                position,
            ),
            answers,
            after,
            state,
            made,
        ),
    ensures
        made == commands,
        state.num_literals == held.num_literals,
        state.last_insert_len == held.last_insert_len + (scene.end - position),
        forall|i: int| 0 <= i < 4 ==> state.dist_cache@[i] == #[trigger] held.dist_cache@[i],
{
    let first = first_scan(
        held,
        derived(held.dist_cache@, scene.last_distances as int),
        commands,
        position,
    );
    lemma_nothing_asked::<M, D, P>(scene, before, first, answers);
}

/// Turns a stretch of input into commands.
///
/// Appends to `commands` and updates `state`; literals that no command has
/// claimed yet stay in [`ReferenceState::last_insert_len`] for the next call.
/// `gap` is how much of `prefix`, an attached dictionary, lies past the window;
/// `independent` spells every distance out.
///
/// The commands are what the greedy rules make of the answers the match finder
/// gives; they account for every byte, and read back in order they reproduce
/// the input.
#[verifier::rlimit(100)]
#[verifier::spinoff_prover]
pub fn create_backward_references<'a, M: Matcher, D: DictionarySource, P: DictionarySource>(
    backend: Backend,
    finder: &mut M,
    params: &GreedyParams,
    window: Window<'a>,
    span: BlockSpan,
    dictionary: &mut D,
    prefix: &mut P,
    gap: usize,
    independent: bool,
    state: &mut ReferenceState,
    commands: &mut Vec<Command>,
) -> (scene: Ghost<Scene<'a>>)
    requires
        params.wf(),
        params.dist.max_distance <= 0x7FFF_FFFF,
        old(finder).wf(),
        window.data@.len() <= MAX_BUFFER,
        span.bytes <= MAX_MATCH,
        span.position + span.bytes <= MAX_POSITION,
        span.position + span.bytes + params.stream_offset <= usize::MAX,
        forall|p: usize|
            span.position <= p < span.position + span.bytes ==> #[trigger] (p & window.mask)
                <= window.data@.len(),
        forall|i: int|
            span.position <= i < span.position + span.bytes ==> #[trigger] old(finder).admits(i),
        gap < MAX_GAP,
        cache_within(old(state).dist_cache@, power2::pow2(params.lgwin as nat) - 16 + gap),
        old(state).last_insert_len + old(state).num_literals + span.bytes <= usize::MAX,
    ensures
        scene_of::<M>(scene@, old(finder), backend, params, window, span, gap, independent),
        final(finder).wf(),
        forall|i: int| #[trigger] final(finder).admits(i) == old(finder).admits(i),
        cache_within(final(state).dist_cache@, power2::pow2(params.lgwin as nat) - 16 + gap),
        // The commands are those of the greedy machine, driven by the finder's
        // answers until too little input is left to search.
        exists|answers: Seq<SearchResult>|
            #[trigger] made_by::<M, D, P>(
                scene@,
                *old(finder),
                first_scan(
                    *old(state),
                    derived(old(state).dist_cache@, scene@.last_distances as int),
                    old(commands)@,
                    span.position as int,
                ),
                answers,
                *final(finder),
                *final(state),
                final(commands)@,
            ),
        // Only new commands are appended, and every byte is accounted for.
        old(commands)@.len() <= final(commands)@.len(),
        final(commands)@.take(old(commands)@.len() as int) == old(commands)@,
        accounted(final(commands)@.skip(old(commands)@.len() as int)) + final(state).last_insert_len
            == old(state).last_insert_len + span.bytes,
        inserted(final(commands)@.skip(old(commands)@.len() as int)) == final(state).num_literals
            - old(state).num_literals,
        // Read back, the new commands reproduce the input.
        scene@.faithful(
            span.position - old(state).last_insert_len,
            derived(old(state).dist_cache@, scene@.last_distances as int),
            final(commands)@.skip(old(commands)@.len() as int),
        ),
{
    let num_bytes: usize = span.bytes as usize;
    let start: usize = span.position as usize;
    let mut position: usize = start;
    let limit: usize = params.max_backward_limit();
    proof {
        power2::lemma2_to64();
        if params.lgwin < 30 {
            power2::lemma_pow2_strictly_increases(params.lgwin as nat, 30);
        }
    }
    let data: &'a [u8] = window.data;
    let cut: &'a [u8] = if window.mask < data.len() {
        &data[0..window.mask + 1]
    } else {
        data
    };
    let scene = Scene {
        data,
        window: cut,
        mask: window.mask,
        end: start + num_bytes,
        limit,
        offset: params.stream_offset,
        gap,
        max_distance: params.dist.max_distance as usize,
        hash_length: finder.hash_type_length(),
        lookahead: finder.store_lookahead(),
        last_distances: finder.last_distances_to_check(),
        extensive: params.quality.extensive_reference_search(),
        independent,
        backend,
    };
    proof {
        assert(scene.window@ =~= scene.data@.take(scene.window@.len() as int));
        assert(power2::pow2(30) == 0x4000_0000);
    }
    let mut insert: usize = state.last_insert_len;
    let mut sparse_from: usize = position + 64;
    let ghost cache0 = state.dist_cache@;
    let ghost base = commands@.len() as int;
    // The derived cache entries are a function of the four remembered ones, so
    // they are refreshed here and again whenever a command changes them.
    let mut cache: DistanceCache = state.dist_cache;
    proof {
        assert(cache0[0] >= 1 && cache0[1] >= 1);
    }
    prepare_distance_cache(&mut cache, scene.last_distances);
    state.dist_cache = cache;
    let ghost finder0 = *finder;
    let ghost first = first_scan(
        *old(state),
        derived(cache0, scene.last_distances as int),
        commands@,
        start as int,
    );
    let ghost mut scan = first;
    let ghost mut answers = Seq::<SearchResult>::empty();
    let ghost origin = start - state.last_insert_len;
    proof {
        assert(cache@ =~= first.cache);
        assert forall|i: int| 0 <= i < 4 implies 1 <= #[trigger] cache@[i] <= i32::MAX - 3
            && cache@[i] <= scene.limit + scene.gap by {
            assert(cache@[i] == cache0[i]);
        }
        assert(commands@.skip(base) =~= Seq::<Command>::empty());
    }
    while position + scene.hash_length < scene.end
        invariant
            scene.wf(),
            scene.data == window.data,
            scene.mask == window.mask,
            scene.end == start + num_bytes,
            num_bytes <= MAX_MATCH,
            start <= position <= scene.end,
            finder.wf(),
            forall|i: int| #[trigger] finder.admits(i) == finder0.admits(i),
            forall|i: int| start <= i < scene.end ==> #[trigger] finder0.admits(i),
            forall|p: usize|
                start <= p < scene.end ==> #[trigger] (p & scene.mask) <= scene.data@.len(),
            cache_within(state.dist_cache@, scene.limit + scene.gap),
            insert + state.num_literals + (scene.end - position) <= usize::MAX,
            sparse_from <= position + 0x400_0000,
            first.position == start,
            scan == scene.run(first, answers),
            scene.answers_hold::<M, D, P>(finder0, first, answers),
            scan.lazy is None,
            scan.position == position,
            scan.insert == insert,
            scan.sparse_from == sparse_from,
            scan.cache == state.dist_cache@,
            scan.literals == state.num_literals,
            scan.commands == commands@,
            matcher::recorded_all(&finder0, finder, scene.data@, scene.mask, scan.recorded),
            0 <= base <= commands@.len(),
            commands@.take(base) == first.commands,
            origin + accounted(commands@.skip(base)) + insert == position,
            inserted(commands@.skip(base)) == state.num_literals - first.literals,
            scene.faithful(origin, first.cache, commands@.skip(base)),
            scene.replayed(origin, first.cache, commands@.skip(base)) == (
                position - insert,
                scan.cache,
            ),
        decreases scene.end - position,
    {
        let ghost finder1 = *finder;
        let ghost scan1 = scan;
        let from: SearchResult = SearchResult::empty();
        proof {
            assert(finder0.admits(position as int));
            assert((position & scene.mask) <= scene.data@.len());
        }
        let answer: SearchResult = scene.search_at(
            finder,
            dictionary,
            prefix,
            &state.dist_cache,
            position,
            from,
        );
        proof {
            scene.lemma_searched::<M, D, P>(
                (finder0, finder1, *finder),
                state.dist_cache,
                first,
                answers,
                scan1,
                answer,
            );
            answers = answers.push(answer);
            scan = scene.run(first, answers);
        }
        if answer.score <= MIN_SCORE {
            insert += 1;
            position += 1;
            if position > sparse_from {
                // Nothing has matched for a long time. Recording every position
                // of incompressible data costs time and floods the table, so the
                // scan strides forward and only records part of what it skips.
                let stride: usize = if position > sparse_from + 4 * 64 {
                    4
                } else {
                    2
                };
                let margin: usize = if scene.lookahead - 1 < stride {
                    stride
                } else {
                    scene.lookahead - 1
                };
                let last: usize = if scene.end < margin {
                    0
                } else {
                    scene.end - margin
                };
                let until: usize = if position + 4 * stride < last {
                    position + 4 * stride
                } else {
                    last
                };
                let ghost passed = Scan {
                    position: position as int,
                    insert: insert as int,
                    recorded: scan1.recorded.push(position - 1),
                    ..scan1
                };
                assert(scan == scene.strided(passed, until as int, stride as int));
                let (landed, pending) = scene.stride_over(
                    finder,
                    position,
                    insert,
                    until,
                    stride,
                    Ghost(passed),
                );
                position = landed;
                insert = pending;
            }
        } else {
            // A match is available; look one byte ahead for a better one, up to
            // four times in a row.
            let mut result: SearchResult = answer;
            let mut delayed: usize = 0;
            let ghost position1 = position;
            loop
                invariant_except_break
                    scan.lazy == Some((result, delayed as int)),
                    scan == scene.run(first, answers),
                    scan.recorded.len() >= 0,
                    matcher::recorded_all(&finder0, finder, scene.data@, scene.mask, scan.recorded),
                    position + scene.hash_length < scene.end,
                    delayed < MAX_DELAYED_IN_A_ROW,
                    scan.position == position,
                    scan.insert == insert,
                    scene.answers_hold::<M, D, P>(finder0, first, answers),
                invariant
                    scene.wf(),
                    scene.data == window.data,
                    scene.mask == window.mask,
                    scene.end == start + num_bytes,
                    num_bytes <= MAX_MATCH,
                    start <= position1 <= position < scene.end,
                    finder.wf(),
                    forall|i: int| #[trigger] finder.admits(i) == finder0.admits(i),
                    forall|i: int| start <= i < scene.end ==> #[trigger] finder0.admits(i),
                    forall|p: usize|
                        start <= p < scene.end ==> #[trigger] (p & scene.mask) <= scene.data@.len(),
                    cache_within(state.dist_cache@, scene.limit + scene.gap),
                    insert + state.num_literals + (scene.end - position) <= usize::MAX,
                    first.position == start,
                    scan.cache == state.dist_cache@,
                    scan.literals == state.num_literals,
                    scan.commands == commands@,
                    result.score > MIN_SCORE,
                    scene.copies(&state.dist_cache, position as int, result),
                    origin + accounted(commands@.skip(base)) + insert == position,
                    scene.replayed(origin, first.cache, commands@.skip(base)) == (
                        position - insert,
                        scan.cache,
                    ),
                ensures
                    scan.position == position,
                    scan.insert == insert,
                    scene.emitted(start as int, scan, result) == scene.run(first, answers),
                    scene.answers_hold::<M, D, P>(finder0, first, answers),
                    matcher::recorded_all(&finder0, finder, scene.data@, scene.mask, scan.recorded),
                decreases MAX_DELAYED_IN_A_ROW - delayed,
            {
                let ghost finder2 = *finder;
                let ghost scan2 = scan;
                let at: usize = position + 1;
                let remaining: usize = scene.end - position - 1;
                let len: usize = if scene.extensive {
                    0
                } else if result.len - 1 < remaining {
                    result.len - 1
                } else {
                    remaining
                };
                let shorter = SearchResult { len, distance: 0, score: MIN_SCORE, len_code_delta: 0 };
                proof {
                    assert(finder0.admits(at as int));
                    assert((at & scene.mask) <= scene.data@.len());
                    assert(shorter == scene.asks_from(scan));
                }
                let better: SearchResult = scene.search_at(
                    finder,
                    dictionary,
                    prefix,
                    &state.dist_cache,
                    at,
                    shorter,
                );
                proof {
                    scene.lemma_searched::<M, D, P>(
                        (finder0, finder2, *finder),
                        state.dist_cache,
                        first,
                        answers,
                        scan2,
                        better,
                    );
                    answers = answers.push(better);
                }
                if better.score >= COST_DIFF_LAZY && better.score - COST_DIFF_LAZY >= result.score {
                    // Emit one more literal and start the match a byte later.
                    position += 1;
                    insert += 1;
                    result = better;
                    delayed += 1;
                    proof {
                        scan = Scan {
                            position: position as int,
                            insert: insert as int,
                            recorded: scan2.recorded.push(at as int),
                            ..scan2
                        };
                    }
                    if delayed < MAX_DELAYED_IN_A_ROW && position + scene.hash_length < scene.end {
                        proof {
                            scan = Scan { lazy: Some((better, delayed as int)), ..scan };
                        }
                        continue;
                    }
                    break;
                }
                proof {
                    scan = Scan { recorded: scan2.recorded.push(at as int), ..scan2 };
                }
                break;
            }
            let ghost scan3 = scan;
            let ghost commands3 = commands@;
            scene.emit(
                finder,
                start,
                position,
                insert,
                result,
                state,
                commands,
                Ghost(scan3),
            );
            proof {
                scan = scene.run(first, answers);
                assert(commands@.skip(base) =~= commands3.skip(base).push(commands@.last()));
                assert(commands@.skip(base).drop_last() =~= commands3.skip(base));
                assert(commands@.take(base) =~= commands3.take(base));
            }
            sparse_from = position + 2 * result.len + 64;
            insert = 0;
            position += result.len;
        }
    }
    state.last_insert_len = insert + (scene.end - position);
    assert(made_by::<M, D, P>(scene, finder0, first, answers, *finder, *state, commands@));
    Ghost(scene)
}

} // verus!
