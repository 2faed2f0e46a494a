//! What every match finder offers, and what a search through one guarantees.
use vstd::prelude::*;

use crate::backend::{Backend, BackendKind};
use crate::greedy::search::{MatchQuery, SearchResult, Sweep, MAX_MATCH};

verus! {

/// What a dictionary is asked for.
#[derive(Copy, Clone, Debug, PartialEq, Eq, Structural)]
pub struct DictionaryRequest {
    /// Longest match the remaining input allows.
    pub max_length: usize,
    /// Distance at which the dictionary begins.
    pub distance: usize,
    /// Longest distance the distance alphabet can express.
    pub max_distance: usize,
    /// Score a word has to beat.
    pub score: usize,
    /// Whether only the first bucket is looked at.
    pub shallow: bool,
}

/// A source of dictionary words, consulted when the window offers nothing.
pub trait DictionarySource: Sized {
    /// A dictionary of this kind can answer a request this way, whatever it was
    /// asked before.
    open spec fn gives(
        data: Seq<u8>,
        request: DictionaryRequest,
        word: Option<SearchResult>,
    ) -> bool {
        arbitrary()
    }

    /// Looks for a word that starts `data` and is worth more than the request's score.
    fn lookup(&mut self, data: &[u8], request: DictionaryRequest) -> (word: Option<SearchResult>)
        ensures
            Self::gives(data@, request, word),
    ;
}

/// Which answers a request for what starts some bytes can have.
pub type Words = spec_fn(Seq<u8>, DictionaryRequest, Option<SearchResult>) -> bool;

/// The answers a kind of dictionary can give.
pub open spec fn words_of<D: DictionarySource>() -> Words {
    |data: Seq<u8>, request: DictionaryRequest, word: Option<SearchResult>|
        D::gives(data, request, word)
}

/// A dictionary without words.
pub struct NoDictionary;

impl DictionarySource for NoDictionary {
    open spec fn gives(
        data: Seq<u8>,
        request: DictionaryRequest,
        word: Option<SearchResult>,
    ) -> bool {
        word is None
    }

    /// Finds nothing.
    fn lookup(&mut self, _data: &[u8], _request: DictionaryRequest) -> Option<SearchResult> {
        None
    }
}

impl<'a> MatchQuery<'a> {
    /// The query is well formed and its dictionary distance fits a word.
    pub open spec fn ready(&self) -> bool {
        &&& self.wf()
        &&& self.cur_ix + self.position_offset <= usize::MAX
        &&& self.dictionary_limit + self.gap <= usize::MAX
    }

    /// Where the dictionary begins.
    pub open spec fn dictionary_at(&self) -> int {
        self.gap + if self.cur_ix + self.position_offset < self.dictionary_limit {
            self.cur_ix + self.position_offset
        } else {
            self.dictionary_limit as int
        }
    }

    /// A reference to a dictionary word: past everything the window and the
    /// attachment hold, expressible, and no longer than asked for.
    pub open spec fn in_dictionary(&self, result: SearchResult) -> bool {
        &&& self.dictionary_at() < result.distance <= self.max_distance
        &&& 1 <= result.len <= self.max_length
    }

    /// A result a command can be built from: a backward reference that
    /// reproduces the input, or a dictionary word.
    pub open spec fn usable(&self, result: SearchResult) -> bool {
        ||| {
            &&& result.len_code_delta == 0
            &&& result.len >= 2
            &&& self.genuine(result.len as int, result.distance as int)
            &&& result.distance <= self.max_backward || result.distance == self.cache@[0]
        }
        ||| self.in_dictionary(result)
    }

    /// What a dictionary's answer does to a result: a word that is really in the
    /// dictionary's range and worth more replaces it.
    pub open spec fn with_word(&self, out: SearchResult, word: Option<SearchResult>) -> SearchResult {
        match word {
            Some(found) => if self.in_dictionary(found) && found.score > out.score {
                found
            } else {
                out
            },
            None => out,
        }
    }

    /// The bytes from the query's position on.
    pub open spec fn rest(&self) -> Seq<u8> {
        self.data@.skip((self.cur_ix & self.mask) as int)
    }

    /// What a dictionary is asked while a result stands.
    pub open spec fn request(&self, out: SearchResult, shallow: bool) -> DictionaryRequest {
        DictionaryRequest {
            max_length: self.max_length,
            distance: self.dictionary_at() as usize,
            max_distance: self.max_distance,
            score: out.score,
            shallow,
        }
    }

    /// A dictionary can answer with a word, and the word turns one result into another.
    pub open spec fn consulted(
        &self,
        words: Words,
        out: SearchResult,
        shallow: bool,
        word: Option<SearchResult>,
        to: SearchResult,
    ) -> bool {
        &&& words(self.rest(), self.request(out, shallow), word)
        &&& to == self.with_word(out, word)
    }

    /// Takes a dictionary's answer into a result.
    pub fn accept_word(&self, out: &mut SearchResult, word: Option<SearchResult>)
        requires
            self.ready(),
        ensures
            *final(out) == self.with_word(*old(out), word),
    {
        if let Some(found) = word {
            let distance: usize = self.dictionary_distance();
            if found.distance > distance && found.distance <= self.max_distance && found.len >= 1
                && found.len <= self.max_length && found.score > out.score {
                *out = found;
            }
        }
    }

    /// Consults the dictionary at the query's position.
    pub fn search_dictionary<D: DictionarySource>(
        &self,
        dictionary: &mut D,
        out: &mut SearchResult,
        shallow: bool,
    )
        requires
            self.ready(),
        ensures
            exists|word: Option<SearchResult>|
                #[trigger] self.consulted(words_of::<D>(), *old(out), shallow, word, *final(out)),
    {
        let here: usize = self.cur_ix & self.mask;
        let request = DictionaryRequest {
            max_length: self.max_length,
            distance: self.dictionary_distance(),
            max_distance: self.max_distance,
            score: out.score,
            shallow,
        };
        let word: Option<SearchResult> = dictionary.lookup(
            &self.data[here..self.data.len()],
            request,
        );
        let ghost before = *out;
        self.accept_word(out, word);
        proof {
            assert(self.data@.subrange(here as int, self.data@.len() as int) =~= self.rest());
            assert(self.consulted(words_of::<D>(), before, shallow, word, *out));
        }
    }
}

/// The positions from one to before another.
pub open spec fn stretch(start: int, end: int) -> Seq<int> {
    Seq::new(
        if start < end {
            (end - start) as nat
        } else {
            0
        },
        |i: int| start + i,
    )
}

/// A match finder is another one with a list of positions recorded in order.
pub open spec fn recorded_all<M: Matcher>(
    before: &M,
    after: &M,
    data: Seq<u8>,
    mask: usize,
    positions: Seq<int>,
) -> bool
    decreases positions.len(),
{
    if positions.len() == 0 {
        *before == *after
    } else {
        exists|mid: M|
            #![trigger after.follows(&mid, data, mask, positions.last())]
            recorded_all(before, &mid, data, mask, positions.drop_last()) && after.follows(
                &mid,
                data,
                mask,
                positions.last(),
            )
    }
}

/// Recording one more position extends the list.
pub proof fn lemma_recorded_push<M: Matcher>(
    before: &M,
    mid: &M,
    after: &M,
    data: Seq<u8>,
    mask: usize,
    positions: Seq<int>,
    ix: int,
)
    requires
        recorded_all(before, mid, data, mask, positions),
        after.follows(mid, data, mask, ix),
    ensures
        recorded_all(before, after, data, mask, positions.push(ix)),
{
    assert(positions.push(ix).drop_last() =~= positions);
    assert(after.follows(mid, data, mask, positions.push(ix).last()));
}

/// Lists recorded one after the other are recorded together.
pub proof fn lemma_recorded_append<M: Matcher>(
    before: &M,
    mid: &M,
    after: &M,
    data: Seq<u8>,
    mask: usize,
    first: Seq<int>,
    second: Seq<int>,
)
    requires
        recorded_all(before, mid, data, mask, first),
        recorded_all(mid, after, data, mask, second),
    ensures
        recorded_all(before, after, data, mask, first + second),
    decreases second.len(),
{
    if second.len() == 0 {
        assert(first + second =~= first);
    } else {
        let last = choose|last: M|
            #![trigger after.follows(&last, data, mask, second.last())]
            recorded_all(mid, &last, data, mask, second.drop_last()) && after.follows(
                &last,
                data,
                mask,
                second.last(),
            );
        lemma_recorded_append(before, mid, &last, data, mask, first, second.drop_last());
        assert((first + second).drop_last() =~= first + second.drop_last());
        assert(after.follows(&last, data, mask, (first + second).last()));
    }
}

/// A match finder over the ring buffer.
pub trait Matcher: Sized {
    /// The tables have the shape the finder was built with.
    spec fn wf(&self) -> bool;

    /// Whether a position can be recorded at all.
    spec fn admits(&self, ix: int) -> bool;

    /// What a search may leave, whatever a dictionary answers of what it can.
    spec fn answers(
        &self,
        words: Words,
        backend: BackendKind,
        query: &MatchQuery,
        from: SearchResult,
        to: SearchResult,
    ) -> bool;

    /// How many bytes a candidate needs available to be hashed.
    spec fn hashed(&self) -> int;

    /// How many bytes a store needs available.
    spec fn looks_ahead(&self) -> int;

    /// How many cached distances a search probes.
    spec fn probes(&self) -> int;

    /// The finder is another one with a position recorded.
    spec fn follows(&self, before: &Self, data: Seq<u8>, mask: usize, ix: int) -> bool;

    /// Returns how many bytes a candidate needs available to be hashed.
    fn hash_type_length(&self) -> (n: usize)
        ensures
            n == self.hashed(),
            n == 4 || n == 8,
    ;

    /// Returns how many bytes a store needs available.
    fn store_lookahead(&self) -> (n: usize)
        ensures
            n == self.looks_ahead(),
            n == 4 || n == 8,
    ;

    /// Returns how many cached distances a search probes.
    fn last_distances_to_check(&self) -> (n: usize)
        requires
            self.wf(),
        ensures
            n == self.probes(),
            4 <= n <= 16,
    ;

    /// Clears the table before the first block.
    ///
    /// `clear` may be false only when construction or a previous reset sweep
    /// already left every reachable entry empty.
    fn prepare(&mut self, one_shot: bool, input_size: usize, data: &[u8], clear: bool) -> (sweep: Sweep)
        requires
            old(self).wf(),
        ensures
            final(self).wf(),
    ;

    /// Records the position `ix` in the table.
    fn store(&mut self, data: &[u8], mask: usize, ix: usize)
        requires
            old(self).wf(),
            old(self).admits(ix as int),
            ix <= u32::MAX,
        ensures
            final(self).wf(),
            final(self).follows(old(self), data@, mask, ix as int),
            forall|i: int| #[trigger] final(self).admits(i) == old(self).admits(i),
    ;

    /// Searches for the best match at `query.cur_ix`, then records it.
    ///
    /// `out` is only improved, never worsened: a better score comes with a
    /// reference a command can be built from, and a search that finds nothing
    /// leaves the incoming candidate in place.
    fn find_longest_match<D: DictionarySource>(
        &mut self,
        backend: Backend,
        dictionary: &mut D,
        query: &MatchQuery,
        out: &mut SearchResult,
    )
        requires
            old(self).wf(),
            old(self).admits(query.cur_ix as int),
            query.ready(),
            old(out).len <= MAX_MATCH,
        ensures
            final(self).wf(),
            final(self).follows(old(self), query.data@, query.mask, query.cur_ix as int),
            old(self).answers(words_of::<D>(), backend.of(), query, *old(out), *final(out)),
            forall|i: int| #[trigger] final(self).admits(i) == old(self).admits(i),
            final(out).score >= old(out).score,
            final(out).score > old(out).score ==> query.usable(*final(out)),
            final(out).score == old(out).score ==> *final(out) == *old(out),
            final(out).len <= MAX_MATCH,
    ;
}

/// What a match finder does with more than one position.
pub trait MatcherRuns: Matcher {
    /// Records every position in `start..end`.
    fn store_range(&mut self, data: &[u8], mask: usize, start: usize, end: usize)
        requires
            old(self).wf(),
            end <= u32::MAX,
            forall|i: int| start <= i < end ==> #[trigger] old(self).admits(i),
        ensures
            final(self).wf(),
            recorded_all(old(self), final(self), data@, mask, stretch(start as int, end as int)),
            forall|i: int| #[trigger] final(self).admits(i) == old(self).admits(i),
    {
        let mut ix: usize = start;
        proof {
            assert(stretch(start as int, start as int) =~= Seq::<int>::empty());
        }
        while ix < end
            invariant
                self.wf(),
                end <= u32::MAX,
                forall|i: int| #[trigger] self.admits(i) == old(self).admits(i),
                forall|i: int| start <= i < end ==> #[trigger] old(self).admits(i),
                start <= ix,
                start <= end ==> ix <= end,
                start > end ==> ix == start,
                recorded_all(old(self), self, data@, mask, stretch(start as int, ix as int)),
            decreases end - ix,
        {
            assert(old(self).admits(ix as int));
            let ghost before = *self;
            self.store(data, mask, ix);
            proof {
                lemma_recorded_push(
                    old(self),
                    &before,
                    self,
                    data@,
                    mask,
                    stretch(start as int, ix as int),
                    ix as int,
                );
                assert(stretch(start as int, ix as int).push(ix as int) =~= stretch(
                    start as int,
                    ix + 1,
                ));
            }
            ix += 1;
        }
        proof {
            assert(stretch(start as int, ix as int) =~= stretch(start as int, end as int));
        }
    }

    /// Records the three positions that span the previous block boundary.
    ///
    /// Their hashes need bytes from both blocks, so they could not be computed
    /// when the previous block was processed.
    fn stitch_to_previous_block(&mut self, num_bytes: usize, position: usize, data: &[u8], mask: usize)
        requires
            old(self).wf(),
            position <= u32::MAX,
            forall|i: int| position - 3 <= i < position ==> #[trigger] old(self).admits(i),
        ensures
            final(self).wf(),
            num_bytes >= old(self).hashed() - 1 && position >= 3 ==> recorded_all(
                old(self),
                final(self),
                data@,
                mask,
                seq![position - 3, position - 2, position - 1],
            ),
            num_bytes < old(self).hashed() - 1 || position < 3 ==> *final(self) == *old(self),
            forall|i: int| #[trigger] final(self).admits(i) == old(self).admits(i),
    {
        if num_bytes >= self.hash_type_length() - 1 && position >= 3 {
            assert(old(self).admits(position - 3));
            assert(old(self).admits(position - 2));
            assert(old(self).admits(position - 1));
            self.store(data, mask, position - 3);
            let ghost first = *self;
            self.store(data, mask, position - 2);
            let ghost second = *self;
            self.store(data, mask, position - 1);
            proof {
                let none = Seq::<int>::empty();
                let one = none.push(position - 3);
                let two = one.push(position - 2);
                lemma_recorded_push(old(self), old(self), &first, data@, mask, none, position - 3);
                lemma_recorded_push(old(self), &first, &second, data@, mask, one, position - 2);
                lemma_recorded_push(old(self), &second, self, data@, mask, two, position - 1);
                assert(two.push(position - 1) =~= seq![position - 3, position - 2, position - 1]);
            }
        }
    }
}

impl<M: Matcher> MatcherRuns for M {

}

} // verus!
