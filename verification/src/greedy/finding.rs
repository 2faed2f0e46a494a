//! What match finders owe: a repetition that is worth taking is not missed.
use vstd::arithmetic::power2;
use vstd::prelude::*;

use crate::backend::BackendKind;
use crate::greedy::block;
use crate::greedy::bucket::BucketMatcher;
use crate::greedy::chain;
use crate::greedy::chain::{ChainMatcher, ChainSlot};
use crate::greedy::search;
use crate::greedy::search::{Best, Found, MatchQuery, SearchResult, MAX_MATCH};
use crate::math;

verus! {

/// A match of at least `n` bytes was taken on the way, for a better score than at the
/// start.
pub open spec fn overtook(query: &MatchQuery, n: int, from: int, to: int, taken: Found) -> bool {
    &&& taken.len >= n
    &&& query.genuine(taken.len as int, taken.distance as int)
    &&& from < taken.score <= to
}

/// A search went from one score to another past a repetition of `n` bytes worth `score`:
/// the score got better, to that of the repetition at least, unless a match as long was
/// taken on the way.
pub open spec fn does_justice(query: &MatchQuery, n: int, score: int, from: int, to: int) -> bool {
    &&& to > from
    &&& to >= score || exists|taken: Found| #[trigger] overtook(query, n, from, to, taken)
}

/// A distance leads to `n` bytes that the input repeats, inside the window and the buffer.
pub open spec fn is_near(query: &MatchQuery, n: int, distance: int) -> bool {
    &&& 1 <= distance <= query.max_backward
    &&& query.repeats(n, distance)
    &&& query.here() + n <= query.window@.len()
    &&& query.back(distance) + n <= query.window@.len()
    &&& query.here() + n <= query.mask + 1
    &&& query.back(distance) + n <= query.mask + 1
}

/// The four bytes that end one past a length agree where more than that is repeated.
proof fn lemma_four_ahead(query: &MatchQuery, n: int, distance: int, len: int)
    requires
        query.wf(),
        is_near(query, n, distance),
        3 <= len < n,
    ensures
        search::half_at(query.data@, query.here() + len - 3) == search::half_at(
            query.data@,
            query.back(distance) + len - 3,
        ),
        search::half_at(query.window@, query.back(distance) + len - 3) == search::half_at(
            query.data@,
            query.back(distance) + len - 3,
        ),
{
    let data = query.data@;
    let here = query.here();
    let back = query.back(distance);
    let left = data.skip(back);
    let right = data.skip(here);
    assert(left[len - 3] == right[len - 3]);
    assert(left[len - 2] == right[len - 2]);
    assert(left[len - 1] == right[len - 1]);
    assert(left[len] == right[len]);
    let cut = data.take(query.window@.len() as int);
    assert(query.window@ == cut);
    assert(cut[back + len - 3] == data[back + len - 3]);
}

/// Judging one candidate of a bucket.
proof fn lemma_judged(query: &MatchQuery, prev: u32, best: Best, found: Found)
    requires
        query.wf(),
    ensures
        ({
            let (goes_on, next_best, next) = search::judged(query, prev, best, found);
            let distance = query.cur_ix - prev;
            &&& goes_on <==> 0 <= distance <= query.max_backward
            &&& next.score >= found.score
            &&& next == found ==> next_best == best
            &&& next != found ==> {
                &&& next.score > found.score
                &&& next_best.len == next.len
                &&& next_best.word == search::half_at(
                    query.data@,
                    query.here() + next_best.len - 3,
                )
                &&& 4 <= next.len <= MAX_MATCH
                &&& next.distance == distance
                &&& query.genuine(next.len as int, distance)
                &&& next.score == search::reference_score(next.len as int, distance)
            }
            &&& forall|n: int| #[trigger]
                is_near(query, n, distance) && n >= 4 && 3 <= best.len < n && best.word
                    == search::half_at(query.data@, query.here() + best.len - 3) ==> next.score
                    >= search::reference_score(n, distance)
        }),
{
    let distance = query.cur_ix - prev;
    if 1 <= distance <= query.max_backward {
        let at = query.back(distance);
        search::lemma_agreement_is_longest(query.data@, at, query.here(), query.max_length as int);
        let len = search::agreement(query.data@, at, query.here(), query.max_length as int);
        search::lemma_scores(len, distance);
        assert forall|n: int| #[trigger]
            is_near(query, n, distance) && n >= 4 && 3 <= best.len < n && best.word
                == search::half_at(
                query.data@,
                query.here() + best.len - 3,
            ) implies search::judged(query, prev, best, found).2.score >= search::reference_score(
            n,
            distance,
        ) by {
            query.lemma_measured(n, distance);
            lemma_four_ahead(query, n, distance, best.len as int);
        }
    }
}

/// Candidates never lose score.
proof fn lemma_judged_all_keeps(query: &MatchQuery, candidates: Seq<u32>, best: Best, found: Found)
    requires
        query.wf(),
    ensures
        search::judged_all(query, candidates, best, found).1.score >= found.score,
    decreases candidates.len(),
{
    if candidates.len() > 0 {
        lemma_judged(query, candidates[0], best, found);
        let (goes_on, next_best, next) = search::judged(query, candidates[0], best, found);
        if goes_on {
            lemma_judged_all_keeps(query, candidates.drop_first(), next_best, next);
        }
    }
}

/// A list of candidates does justice to each of them that is reached and repeats more than
/// the length to beat.
proof fn lemma_candidate_is_found(
    query: &MatchQuery,
    candidates: Seq<u32>,
    best: Best,
    found: Found,
    k: int,
    n: int,
    from: int,
)
    requires
        query.wf(),
        0 <= k < candidates.len(),
        forall|m: int|
            0 <= m < k ==> 0 <= query.cur_ix - #[trigger] candidates[m] <= query.max_backward,
        is_near(query, n, query.cur_ix - candidates[k]),
        n >= 4,
        search::reference_score(n, query.cur_ix - candidates[k]) > from,
        3 <= best.len,
        best.word == search::half_at(query.data@, query.here() + best.len - 3),
        found.score >= from,
        best.len < n || overtook(query, n, from, found.score as int, found),
    ensures
        does_justice(
            query,
            n,
            search::reference_score(n, query.cur_ix - candidates[k]),
            from,
            search::judged_all(query, candidates, best, found).1.score as int,
        ),
    decreases k,
{
    let (goes_on, next_best, next) = search::judged(query, candidates[0], best, found);
    lemma_judged(query, candidates[0], best, found);
    let rest = candidates.drop_first();
    let to = search::judged_all(query, candidates, best, found).1.score as int;
    lemma_judged_all_keeps(query, candidates, best, found);
    if best.len >= n {
        assert(overtook(query, n, from, to, found));
    } else if k == 0 {
        if goes_on {
            lemma_judged_all_keeps(query, rest, next_best, next);
        }
    } else {
        assert(0 <= query.cur_ix - candidates[0] <= query.max_backward);
        assert forall|m: int| 0 <= m < k - 1 implies 0 <= query.cur_ix - #[trigger] rest[m]
            <= query.max_backward by {
            assert(rest[m] == candidates[m + 1]);
        }
        assert(rest[k - 1] == candidates[k]);
        lemma_candidate_is_found(query, rest, next_best, next, k - 1, n, from);
    }
}

/// Probing the cached distances leaves the length to beat and the match as they were, or
/// takes a repetition that is really there.
proof fn lemma_probed(query: &MatchQuery, index: int, limit: int, best_len: int, found: Found)
    requires
        query.wf(),
        0 <= index,
        limit <= 16,
    ensures
        ({
            let (len, next) = search::probed(query, index, limit, best_len, found);
            &&& next.score >= found.score
            &&& (len, next) == (best_len, found) || {
                &&& next.score > found.score
                &&& len == next.len
                &&& next.len >= 2
                &&& query.genuine(next.len as int, next.distance as int)
            }
        }),
    decreases limit - index,
{
    if index < limit {
        if search::probes(query, index) && query.here() + best_len < query.window@.len() {
            let distance = query.cache@[index] as int;
            let at = query.back(distance);
            search::lemma_agreement_is_longest(
                query.data@,
                at,
                query.here(),
                query.max_length as int,
            );
            let len = search::agreement(query.data@, at, query.here(), query.max_length as int);
            lemma_penalty(index);
            match search::cached_verdict(query, at, index, found.score as int) {
                Some((len, score)) => {
                    lemma_probed(
                        query,
                        index + 1,
                        limit,
                        len as int,
                        Found { len, distance: distance as usize, score },
                    );
                },
                None => {},
            }
            lemma_probed(query, index + 1, limit, best_len, found);
        } else {
            lemma_probed(query, index + 1, limit, best_len, found);
        }
    }
}

/// What an older cached distance is charged is between 39 and 53.
proof fn lemma_penalty(index: int)
    requires
        0 <= index < 16,
    ensures
        39 <= search::cached_penalty(index) <= 53,
{
    search::lemma_penalties(index);
}

/// A bucket search does justice to each candidate inside the window that it reaches and
/// that repeats at least four bytes, more than the incoming length, for a better score.
pub proof fn lemma_bucket_is_complete(
    query: &MatchQuery,
    out: SearchResult,
    depth: int,
    candidates: Seq<u32>,
    k: int,
    n: int,
)
    requires
        query.wf(),
        0 <= k < candidates.len(),
        forall|m: int|
            0 <= m < k ==> 0 <= query.cur_ix - #[trigger] candidates[m] <= query.max_backward,
        is_near(query, n, query.cur_ix - candidates[k]),
        n >= 4,
        out.len < n,
        search::reference_score(n, query.cur_ix - candidates[k]) > out.score,
    ensures
        does_justice(
            query,
            n,
            search::reference_score(n, query.cur_ix - candidates[k]),
            out.score as int,
            block::bucket_result(query, out, depth, candidates).score as int,
        ),
{
    let start = Found { len: 0, distance: 0, score: out.score };
    let (probed_len, probed) = search::probed(
        query,
        0,
        search::distances_for(depth),
        out.len as int,
        start,
    );
    lemma_probed(query, 0, search::distances_for(depth), out.len as int, start);
    let best_len = if probed_len < 3 {
        3
    } else {
        probed_len
    };
    let best = Best {
        len: best_len as u32,
        word: search::half_at(query.data@, query.here() + best_len - 3),
    };
    lemma_candidate_is_found(query, candidates, best, probed, k, n, out.score as int);
    let found = search::judged_all(query, candidates, best, probed).1;
    lemma_judged_all_len(query, candidates, best, probed);
}

/// What candidates leave is what was there, or a match of some length.
proof fn lemma_judged_all_len(query: &MatchQuery, candidates: Seq<u32>, best: Best, found: Found)
    requires
        query.wf(),
    ensures
        ({
            let next = search::judged_all(query, candidates, best, found).1;
            next == found || next.len >= 4
        }),
    decreases candidates.len(),
{
    if candidates.len() > 0 {
        lemma_judged(query, candidates[0], best, found);
        let (goes_on, next_best, next) = search::judged(query, candidates[0], best, found);
        if goes_on {
            lemma_judged_all_len(query, candidates.drop_first(), next_best, next);
        }
    }
}

impl<const HASH64: bool, const BUCKETS: usize, const BLOCK: usize> BucketMatcher<
    HASH64,
    BUCKETS,
    BLOCK,
> {
    /// A bucket matcher misses nothing that its bucket holds: a position that is stored
    /// there, newest first, with nothing newer outside the window, is found if it repeats
    /// at least four bytes, more than the incoming length, for a better score. The match
    /// scores at least what that position does, unless one as long was found before it.
    pub proof fn lemma_search_is_complete(
        &self,
        query: &MatchQuery,
        out: SearchResult,
        age: int,
        n: int,
    )
        requires
            query.wf(),
            ({
                let held = self.positions(Self::key_of(query.data@, query.here()));
                &&& 0 <= age < held.len()
                &&& forall|m: int|
                    0 <= m < age ==> 0 <= query.cur_ix - #[trigger] held[m] <= query.max_backward
                &&& is_near(query, n, query.cur_ix - held[age])
                &&& search::reference_score(n, query.cur_ix - held[age]) > out.score
            }),
            n >= 4,
            out.len < n,
        ensures
            does_justice(
                query,
                n,
                search::reference_score(
                    n,
                    query.cur_ix - self.positions(Self::key_of(query.data@, query.here()))[age],
                ),
                out.score as int,
                self.result(BackendKind::Scalar, query, out).score as int,
            ),
    {
        let key = Self::key_of(query.data@, query.here());
        let tag = Self::tag_of(query.data@, query.here());
        let held = self.positions(key);
        block::lemma_picked_all(held, tag, 0);
        assert(held.skip(0) =~= held);
        lemma_bucket_is_complete(query, out, BLOCK as int, held, age, n);
    }
}

/// Places whose first four bytes agree hold the same word.
proof fn lemma_same_word(query: &MatchQuery, n: int, distance: int)
    requires
        query.repeats(n, distance),
        n >= 4,
    ensures
        search::half_at(query.data@, query.back(distance)) == search::half_at(
            query.data@,
            query.here(),
        ),
{
    let left = query.data@.skip(query.back(distance));
    let right = query.data@.skip(query.here());
    assert(left[0] == right[0] && left[1] == right[1] && left[2] == right[2] && left[3]
        == right[3]);
}

impl<const HASH64: bool, const BUCKETS: usize, const BLOCK: usize> BucketMatcher<
    HASH64,
    BUCKETS,
    BLOCK,
> {
    /// A position that was just stored is found where its four bytes come again: a match
    /// that scores at least what it does, or one as long. Only a counter that wraps makes
    /// a bucket forget it.
    pub proof fn lemma_stored_is_found(
        &self,
        before: &Self,
        query: &MatchQuery,
        out: SearchResult,
        ix: u32,
        tag: u8,
        n: int,
    )
        requires
            query.wf(),
            !HASH64,
            BLOCK > 0,
            before.records(),
            0 <= Self::key_of(query.data@, query.here()) < BUCKETS,
            before.count_of(Self::key_of(query.data@, query.here())) < 0xFFFF,
            self.stored(
                before,
                Self::key_of(query.data@, ((ix as usize) & query.mask) as int),
                ix,
                tag,
            ),
            is_near(query, n, query.cur_ix - ix),
            n >= 4,
            out.len < n,
            search::reference_score(n, query.cur_ix - ix) > out.score,
        ensures
            does_justice(
                query,
                n,
                search::reference_score(n, query.cur_ix - ix),
                out.score as int,
                self.result(BackendKind::Scalar, query, out).score as int,
            ),
    {
        let key = Self::key_of(query.data@, query.here());
        lemma_same_word(query, n, query.cur_ix - ix);
        assert(query.back(query.cur_ix - ix) == ((ix as usize) & query.mask) as int);
        assert(self.positions(key) == block::pushed(
            before.positions(key),
            ix,
            before.count_of(key),
            BLOCK as int,
        ));
        assert(self.positions(key)[0] == ix);
        self.lemma_search_is_complete(query, out, 0, n);
    }
}

/// A repetition at the last distance is not missed by a bucket search.
pub proof fn lemma_bucket_tries_last_distance(
    query: &MatchQuery,
    out: SearchResult,
    depth: int,
    candidates: Seq<u32>,
    n: int,
)
    requires
        query.wf(),
        n >= 2,
        out.len < n,
        is_near(query, n, query.cache@[0] as int),
        search::cached_score(n) > out.score,
    ensures
        block::bucket_result(query, out, depth, candidates).score >= search::cached_score(n),
{
    let start = Found { len: 0, distance: 0, score: out.score };
    let limit = search::distances_for(depth);
    let distance = query.cache@[0] as int;
    let at = query.back(distance);
    query.lemma_measured(n, distance);
    let left = query.data@.skip(at);
    let right = query.data@.skip(query.here());
    assert(left[out.len as int] == right[out.len as int]);
    let cut = query.data@.take(query.window@.len() as int);
    assert(query.window@ == cut);
    let len = search::agreement(query.data@, at, query.here(), query.max_length as int);
    let taken = Found {
        len: len as usize,
        distance: distance as usize,
        score: search::cached_score(len) as usize,
    };
    assert(search::cached_verdict(query, at, 0, out.score as int) == Some(
        (taken.len, taken.score),
    ));
    lemma_probed(query, 1, limit, len, taken);
    let (probed_len, probed) = search::probed(query, 0, limit, out.len as int, start);
    assert((probed_len, probed) == search::probed(query, 1, limit, len, taken));
    let best_len = if probed_len < 3 {
        3
    } else {
        probed_len
    };
    let best = Best {
        len: best_len as u32,
        word: search::half_at(query.data@, query.here() + best_len - 3),
    };
    lemma_judged_all_keeps(query, candidates, best, probed);
    lemma_judged_all_len(query, candidates, best, probed);
}

/// How far back the `h`th position of a chain is.
pub open spec fn chain_spot(
    nodes: spec_fn(int) -> ChainSlot,
    backward: int,
    delta: int,
    slot: int,
    h: int,
) -> int
    decreases h,
{
    if h <= 0 {
        backward + delta
    } else {
        chain_spot(
            nodes,
            backward + delta,
            nodes(slot).delta as int,
            nodes(slot).next as int,
            h - 1,
        )
    }
}

/// A chain leads back.
proof fn lemma_chain_leads_back(
    nodes: spec_fn(int) -> ChainSlot,
    backward: int,
    delta: int,
    slot: int,
    h: int,
)
    requires
        0 <= h,
    ensures
        chain_spot(nodes, backward, delta, slot, h) >= backward + delta,
    decreases h,
{
    if h > 0 {
        lemma_chain_leads_back(
            nodes,
            backward + delta,
            nodes(slot).delta as int,
            nodes(slot).next as int,
            h - 1,
        );
    }
}

/// Judging one position of a chain.
proof fn lemma_chain_judged(query: &MatchQuery, backward: int, best_len: int, found: Found)
    requires
        query.wf(),
        0 <= backward <= query.max_backward,
    ensures
        ({
            let (len, next) = chain::chain_judged(query, backward, best_len, found);
            &&& next.score >= found.score
            &&& next == found ==> len == best_len
            &&& next != found ==> {
                &&& next.score > found.score
                &&& len == next.len
                &&& next.len >= 4
                &&& query.genuine(next.len as int, next.distance as int)
                &&& next.distance == backward
                &&& next.score == search::reference_score(next.len as int, backward)
            }
            &&& forall|n: int| #[trigger]
                is_near(query, n, backward) && n >= 4 && 3 <= best_len < n ==> next.score
                    >= search::reference_score(n, backward)
        }),
{
    if backward >= 1 {
        let at = query.back(backward);
        search::lemma_agreement_is_longest(query.data@, at, query.here(), query.max_length as int);
        let len = search::agreement(query.data@, at, query.here(), query.max_length as int);
        search::lemma_scores(len, backward);
        assert forall|n: int| #[trigger]
            is_near(query, n, backward) && n >= 4 && 3 <= best_len < n implies chain::chain_judged(
            query,
            backward,
            best_len,
            found,
        ).1.score >= search::reference_score(n, backward) by {
            query.lemma_measured(n, backward);
            lemma_four_ahead(query, n, backward, best_len);
        }
    }
}

/// A chain never loses score.
proof fn lemma_chain_keeps(
    query: &MatchQuery,
    nodes: spec_fn(int) -> ChainSlot,
    hops: int,
    backward: int,
    delta: int,
    slot: int,
    best_len: int,
    found: Found,
)
    requires
        query.wf(),
        0 <= backward,
        0 <= delta,
    ensures
        chain::chain_walked(query, nodes, hops, backward, delta, slot, best_len, found).score
            >= found.score,
    decreases hops,
{
    if hops > 0 && backward + delta <= query.max_backward {
        lemma_chain_judged(query, backward + delta, best_len, found);
        let (next_len, next) = chain::chain_judged(query, backward + delta, best_len, found);
        lemma_chain_keeps(
            query,
            nodes,
            hops - 1,
            backward + delta,
            nodes(slot).delta as int,
            nodes(slot).next as int,
            next_len,
            next,
        );
    }
}

/// A chain does justice to each of its positions that is reached and repeats more than
/// the length to beat.
proof fn lemma_chain_finds(
    query: &MatchQuery,
    nodes: spec_fn(int) -> ChainSlot,
    hops: int,
    backward: int,
    delta: int,
    slot: int,
    best_len: int,
    found: Found,
    h: int,
    n: int,
    from: int,
)
    requires
        query.wf(),
        0 <= backward,
        0 <= delta,
        0 <= h < hops,
        is_near(query, n, chain_spot(nodes, backward, delta, slot, h)),
        n >= 4,
        search::reference_score(n, chain_spot(nodes, backward, delta, slot, h)) > from,
        3 <= best_len,
        found.score >= from,
        best_len < n || overtook(query, n, from, found.score as int, found),
    ensures
        does_justice(
            query,
            n,
            search::reference_score(n, chain_spot(nodes, backward, delta, slot, h)),
            from,
            chain::chain_walked(
                query,
                nodes,
                hops,
                backward,
                delta,
                slot,
                best_len,
                found,
            ).score as int,
        ),
    decreases h,
{
    let to = chain::chain_walked(
        query,
        nodes,
        hops,
        backward,
        delta,
        slot,
        best_len,
        found,
    ).score as int;
    lemma_chain_keeps(query, nodes, hops, backward, delta, slot, best_len, found);
    lemma_chain_leads_back(nodes, backward, delta, slot, h);
    lemma_chain_judged(query, backward + delta, best_len, found);
    let (next_len, next) = chain::chain_judged(query, backward + delta, best_len, found);
    let node = nodes(slot);
    lemma_chain_keeps(
        query,
        nodes,
        hops - 1,
        backward + delta,
        node.delta as int,
        node.next as int,
        next_len,
        next,
    );
    if best_len >= n {
        assert(overtook(query, n, from, to, found));
    } else if h > 0 {
        lemma_chain_finds(
            query,
            nodes,
            hops - 1,
            backward + delta,
            node.delta as int,
            node.next as int,
            next_len,
            next,
            h - 1,
            n,
            from,
        );
    }
}

/// Probing the cached distances before a chain.
proof fn lemma_chain_probed(
    query: &MatchQuery,
    tiny: Seq<u8>,
    tag: u8,
    index: int,
    limit: int,
    best_len: int,
    found: Found,
)
    requires
        query.wf(),
        0 <= index,
        limit <= 16,
    ensures
        ({
            let (len, next) = chain::chain_probed(query, tiny, tag, index, limit, best_len, found);
            &&& next.score >= found.score
            &&& (len, next) == (best_len, found) || {
                &&& next.score > found.score
                &&& len == next.len
                &&& query.genuine(next.len as int, next.distance as int)
            }
        }),
    decreases limit - index,
{
    if index < limit {
        let distance = query.cache@[index] as int;
        if search::probes(query, index) {
            search::lemma_agreement_is_longest(
                query.data@,
                query.back(distance),
                query.here(),
                query.max_length as int,
            );
            lemma_penalty(index);
            match chain::chain_verdict(query, index, found.score as int) {
                Some((len, score)) => {
                    let taken = Found {
                        len: len as usize,
                        distance: distance as usize,
                        score: score as usize,
                    };
                    lemma_chain_probed(query, tiny, tag, index + 1, limit, len, taken);
                },
                None => {},
            }
        }
        lemma_chain_probed(query, tiny, tag, index + 1, limit, best_len, found);
    }
}

impl<const NUM_BANKS: usize, const BANK_BITS: u32> ChainMatcher<NUM_BANKS, BANK_BITS> {
    /// A chain matcher misses nothing that the first positions of its chain hold: the
    /// `h`th, if it lies inside the window and repeats at least four bytes, more than the
    /// incoming length, for a better score, is found, or another match as long.
    pub proof fn lemma_search_is_complete(
        &self,
        query: &MatchQuery,
        out: SearchResult,
        h: int,
        n: int,
    )
        requires
            query.wf(),
            self.last_distances <= 16,
            0 <= h < self.max_hops,
            n >= 4,
            out.len < n,
            ({
                let key = Self::key_of(query.data@, query.here());
                let distance = chain_spot(
                    self.chain_nodes(key),
                    0,
                    query.cur_ix - self.addr@[key],
                    self.head@[key] as int,
                    h,
                );
                &&& self.addr@[key] <= query.cur_ix
                &&& is_near(query, n, distance)
                &&& search::reference_score(n, distance) > out.score
            }),
        ensures
            ({
                let key = Self::key_of(query.data@, query.here());
                let distance = chain_spot(
                    self.chain_nodes(key),
                    0,
                    query.cur_ix - self.addr@[key],
                    self.head@[key] as int,
                    h,
                );
                does_justice(
                    query,
                    n,
                    search::reference_score(n, distance),
                    out.score as int,
                    self.result(query, out).score as int,
                )
            }),
    {
        let key = Self::key_of(query.data@, query.here());
        let start = Found { len: 0, distance: 0, score: out.score };
        let tag = (key % 256) as u8;
        let (probed_len, probed) = chain::chain_probed(
            query,
            self.tiny_hash@,
            tag,
            0,
            self.last_distances as int,
            out.len as int,
            start,
        );
        lemma_chain_probed(
            query,
            self.tiny_hash@,
            tag,
            0,
            self.last_distances as int,
            out.len as int,
            start,
        );
        let best_len = if probed_len < 3 {
            3
        } else {
            probed_len
        };
        lemma_chain_finds(
            query,
            self.chain_nodes(key),
            self.max_hops as int,
            0,
            query.cur_ix - self.addr@[key],
            self.head@[key] as int,
            best_len,
            probed,
            h,
            n,
            out.score as int,
        );
    }

    /// A repetition of two bytes or more at the last distance is not missed by a chain
    /// search.
    pub proof fn lemma_last_distance_is_found(&self, query: &MatchQuery, out: SearchResult, n: int)
        requires
            query.wf(),
            1 <= self.last_distances <= 16,
            n >= 2,
            is_near(query, n, query.cache@[0] as int),
            search::cached_score(n) > out.score,
        ensures
            self.result(query, out).score >= search::cached_score(n),
    {
        let key = Self::key_of(query.data@, query.here());
        let start = Found { len: 0, distance: 0, score: out.score };
        let tag = (key % 256) as u8;
        let limit = self.last_distances as int;
        let distance = query.cache@[0] as int;
        query.lemma_measured(n, distance);
        let len = search::agreement(
            query.data@,
            query.back(distance),
            query.here(),
            query.max_length as int,
        );
        let taken = Found {
            len: len as usize,
            distance: distance as usize,
            score: search::cached_score(len) as usize,
        };
        lemma_chain_probed(query, self.tiny_hash@, tag, 1, limit, len, taken);
        let (probed_len, probed) = chain::chain_probed(
            query,
            self.tiny_hash@,
            tag,
            0,
            limit,
            out.len as int,
            start,
        );
        assert((probed_len, probed) == chain::chain_probed(
            query,
            self.tiny_hash@,
            tag,
            1,
            limit,
            len,
            taken,
        ));
        if self.addr@[key] <= query.cur_ix {
            lemma_chain_keeps(
                query,
                self.chain_nodes(key),
                self.max_hops as int,
                0,
                query.cur_ix - self.addr@[key],
                self.head@[key] as int,
                if probed_len < 3 {
                    3
                } else {
                    probed_len
                },
                probed,
            );
        }
    }
}

impl<const NUM_BANKS: usize, const BANK_BITS: u32> ChainMatcher<NUM_BANKS, BANK_BITS> {
    /// A position that was just stored is found where its four bytes come again: a match
    /// that scores at least what it does, or one as long.
    pub proof fn lemma_stored_is_found(
        &self,
        before: &Self,
        query: &MatchQuery,
        out: SearchResult,
        ix: u32,
        n: int,
    )
        requires
            query.wf(),
            self.last_distances <= 16,
            1 <= self.max_hops,
            self.recorded(before, query.data@, query.mask, ix as int),
            0 <= Self::key_of(query.data@, query.here()) < before.addr@.len(),
            is_near(query, n, query.cur_ix - ix),
            n >= 4,
            out.len < n,
            search::reference_score(n, query.cur_ix - ix) > out.score,
        ensures
            does_justice(
                query,
                n,
                search::reference_score(n, query.cur_ix - ix),
                out.score as int,
                self.result(query, out).score as int,
            ),
    {
        let key = Self::key_of(query.data@, query.here());
        lemma_same_word(query, n, query.cur_ix - ix);
        assert(query.back(query.cur_ix - ix) == ((ix as usize) & query.mask) as int);
        assert(self.addr@[key] == ix);
        self.lemma_search_is_complete(query, out, 0, n);
    }

    /// Positions of a bucket are linked, the newest first: behind the one that was stored
    /// last comes the one that was its newest before, unless that is more than 65535 back.
    pub proof fn lemma_positions_are_linked(
        &self,
        before: &Self,
        data: Seq<u8>,
        mask: usize,
        ix: u32,
        at: int,
    )
        requires
            Self::shaped(),
            before.inv(),
            self.recorded(before, data, mask, ix as int),
            ({
                let key = Self::key_of(data, ((ix as usize) & mask) as int);
                &&& 0 <= key < before.addr@.len()
                &&& key < before.head@.len()
                &&& 0 <= ix - before.addr@[key] <= 65535
            }),
        ensures
            ({
                let key = Self::key_of(data, ((ix as usize) & mask) as int);
                let nodes = self.chain_nodes(key);
                let newest = at - self.addr@[key];
                let head = self.head@[key] as int;
                &&& chain_spot(nodes, 0, newest, head, 0) == at - ix
                &&& chain_spot(nodes, 0, newest, head, 1) == at - before.addr@[key]
            }),
    {
        let key = Self::key_of(data, ((ix as usize) & mask) as int);
        let bank = Self::bank_of(key);
        let size = Self::bank_size();
        let slot = before.free_slot_idx@[bank] as int % size;
        power2::lemma_pow2_pos(BANK_BITS as nat);
        power2::lemma2_to64();
        if BANK_BITS < 16 {
            power2::lemma_pow2_strictly_increases(BANK_BITS as nat, 16);
        }
        math::lemma_exponent(NUM_BANKS as int);
        vstd::arithmetic::div_mod::lemma_mod_bound(
            before.free_slot_idx@[bank] as int,
            size,
        );
        vstd::arithmetic::div_mod::lemma_mod_bound(key, NUM_BANKS as int);
        vstd::arithmetic::div_mod::lemma_small_mod(slot as nat, size as nat);
        let nodes = self.chain_nodes(key);
        assert(self.head@[key] == slot);
        assert(nodes(slot) == self.node(bank, slot));
        reveal_with_fuel(chain_spot, 2);
    }
}

} // verus!
