//! Quick match finder: one hash, a handful of slots.
use vstd::arithmetic::power2;
use vstd::bits;
use vstd::prelude::*;

use crate::backend::{Backend, BackendKind};
use crate::greedy::matcher::{DictionarySource, Matcher, Words};
use crate::greedy::search;
use crate::greedy::search::{
    backward_reference_score, backward_reference_score_using_last_distance, measure, read_u64,
    read_u8, MatchQuery, SearchResult, Sweep, HASH_MUL64, MAX_MATCH, NUM_REMEMBERED_DISTANCES,
};
use crate::greedy::slots;
use crate::greedy::slots::{SmallSlots, SMALL_SLOTS_MAX_INPUT};
use crate::math;
use crate::shared::capacity;
use crate::shared::capacity::{held_by, total};
use crate::shared::fast_log;
use crate::shared::fast_log::log2_floor_non_zero;
use crate::shared::match_len;

verus! {

/// Quick match finder with one hash bucket sweep.
///
/// `BUCKETS` sizes the table, `SWEEP_BITS` says how many neighbouring slots one
/// hash owns, `HASH_LEN` how many bytes feed the hash, and `USE_DICTIONARY`
/// whether a miss falls back to the static dictionary.
///
/// A `COMPACT` matcher is built for a short input. Its first stream indexes a
/// small map instead of the table, so a one-shot call never clears the table;
/// from its second stream on it allocates the table.
pub struct QuickMatcher<
    const BUCKETS: usize,
    const SWEEP_BITS: u32,
    const HASH_LEN: u32,
    const USE_DICTIONARY: bool,
    const COMPACT: bool,
> {
    /// The full table; `None` while a compact matcher is on its first stream.
    pub buckets: Option<Vec<u32>>,
    /// The map a compact matcher's first stream indexes through.
    pub compact: SmallSlots,
}

/// What one slot's position does to the best match so far.
///
/// A position counts if it lies inside the window, agrees with the input one
/// byte past the best length, and repeats at least four bytes for a better
/// score.
pub open spec fn quick_judged(
    query: &MatchQuery,
    prev: u32,
    best_len: int,
    out: SearchResult,
) -> (int, SearchResult) {
    let at = ((prev as usize) & query.mask) as int;
    let distance = query.cur_ix - prev;
    let len = search::agreement(query.data@, at, query.here(), query.max_length as int);
    let score = search::reference_score(len, distance);
    if 1 <= distance <= query.max_backward && search::byte_at(query.data@, query.here() + best_len)
        == search::byte_at(query.data@, at + best_len) && len >= 4 && out.score < score {
        (
            len,
            SearchResult {
                len: len as usize,
                distance: distance as usize,
                score: score as usize,
                len_code_delta: 0,
            },
        )
    } else {
        (best_len, out)
    }
}

/// What the last distance does to the best match so far.
pub open spec fn quick_cached(query: &MatchQuery, out: SearchResult) -> SearchResult {
    let distance = query.cache@[0] as int;
    let at = query.back(distance);
    let len = search::agreement(query.data@, at, query.here(), query.max_length as int);
    if 1 <= distance <= query.cur_ix && search::byte_at(query.data@, query.here() + out.len)
        == search::byte_at(query.data@, at + out.len) && len >= 4 && out.score
        < search::cached_score(len) {
        SearchResult {
            len: len as usize,
            distance: distance as usize,
            score: search::cached_score(len) as usize,
            len_code_delta: 0,
        }
    } else {
        out
    }
}

/// What the slots of a sweep, from `sweep` on, leave as the best match.
pub open spec fn quick_sweep(
    query: &MatchQuery,
    slots: spec_fn(int) -> u32,
    buckets: int,
    key: int,
    sweep: int,
    width: int,
    best_len: int,
    out: SearchResult,
) -> SearchResult
    decreases width - sweep,
{
    if sweep >= width {
        out
    } else {
        let (next_len, next) = quick_judged(
            query,
            slots((key + 8 * sweep) % buckets),
            best_len,
            out,
        );
        quick_sweep(query, slots, buckets, key, sweep + 1, width, next_len, next)
    }
}

impl<
    const BUCKETS: usize,
    const SWEEP_BITS: u32,
    const HASH_LEN: u32,
    const USE_DICTIONARY: bool,
    const COMPACT: bool,
> QuickMatcher<BUCKETS, SWEEP_BITS, HASH_LEN, USE_DICTIONARY, COMPACT> {
    /// The shape is one the encoder uses.
    pub open spec fn shaped() -> bool {
        &&& math::is_pow2(BUCKETS as int)
        &&& 256 <= BUCKETS <= 0x10_0000
        &&& SWEEP_BITS <= 2
        &&& 1 <= HASH_LEN <= 8
        &&& COMPACT ==> BUCKETS <= slots::SMALL_SLOTS_LIMIT
    }

    /// What a slot holds.
    pub open spec fn slot(&self, i: int) -> u32 {
        match self.buckets {
            Some(table) => table@[i],
            None => self.compact.value(i),
        }
    }

    /// The table has its size, or the map is in order.
    pub open spec fn inv(&self) -> bool {
        &&& Self::shaped()
        &&& match self.buckets {
            Some(table) => table@.len() == BUCKETS,
            None => COMPACT && self.compact.wf(),
        }
        &&& self.compact.wf()
    }

    /// The bucket of the bytes at an offset.
    pub open spec fn key_of(data: Seq<u8>, offset: int) -> int {
        ((match_len::word_at(data, offset) << ((64 - 8 * HASH_LEN) as u64)).wrapping_mul(HASH_MUL64)
            >> ((64 - math::exponent(BUCKETS as int)) as u64)) as int
    }

    /// Slots one hash owns.
    pub open spec fn width() -> int {
        if SWEEP_BITS == 0 {
            1
        } else if SWEEP_BITS == 1 {
            2
        } else {
            4
        }
    }

    /// The slot a position hashing to `key` is stored into: the sweep's slots
    /// take turns every eight positions.
    pub open spec fn home_slot(key: int, ix: int) -> int {
        (key + 8 * ((ix / 8) % Self::width())) % (BUCKETS as int)
    }

    /// Creates an empty table.
    pub fn new() -> (matcher: Self)
        requires
            Self::shaped(),
        ensures
            matcher.inv(),
            matcher.buckets is None == COMPACT,
            forall|i: int| 0 <= i < BUCKETS ==> #[trigger] matcher.slot(i) == 0,
    {
        if COMPACT {
            QuickMatcher { buckets: None, compact: SmallSlots::default() }
        } else {
            QuickMatcher { buckets: Some(vec![0u32; BUCKETS]), compact: SmallSlots::default() }
        }
    }

    /// What the items in use take.
    pub open spec fn least_bytes(&self) -> int {
        4int * self.compact.entries@.len() + match self.buckets {
            Some(table) => 4int * table@.len(),
            None => 0,
        }
    }

    /// Returns how many bytes the table holds on to.
    pub fn retained_bytes(&self) -> (bytes: usize)
        ensures
            capacity::covers(bytes, self.least_bytes()),
    {
        let table: usize = match &self.buckets {
            Some(table) => held_by(table, 4),
            None => 0,
        };
        total(table, held_by(&self.compact.entries, 4))
    }

    /// Returns the bucket of the bytes at `offset`.
    pub fn hash(data: &[u8], offset: usize) -> (key: usize)
        requires
            Self::shaped(),
        ensures
            key == Self::key_of(data@, offset as int),
            key < BUCKETS,
    {
        let shift: u32 = 64 - 8 * HASH_LEN;
        let value: u64 = read_u64(data, offset) << shift;
        let bits: u32 = log2_floor_non_zero(BUCKETS);
        proof {
            lemma_bucket_bits(BUCKETS, bits as int);
            assert(value == match_len::word_at(data@, offset as int) << ((64 - 8 * HASH_LEN) as u64));
        }
        let mixed: u64 = value.wrapping_mul(HASH_MUL64);
        let down: u32 = 64 - bits;
        proof {
            math::lemma_top_bits(mixed, down as u64, bits as nat);
        }
        (mixed >> down) as usize
    }

    /// Returns the slot the position `ix` hashing to `key` is stored into.
    pub fn slot_of(key: usize, ix: usize) -> (slot: usize)
        requires
            Self::shaped(),
            key < BUCKETS,
        ensures
            slot == Self::home_slot(key as int, ix as int),
            slot < BUCKETS,
    {
        let width: usize = if SWEEP_BITS == 0 {
            1
        } else if SWEEP_BITS == 1 {
            2
        } else {
            4
        };
        proof {
            vstd::arithmetic::div_mod::lemma_mod_bound(
                key + 8 * ((ix as int / 8) % (width as int)),
                BUCKETS as int,
            );
        }
        (key + 8 * ((ix / 8) % width)) % BUCKETS
    }

    /// Reads a slot.
    fn read(&self, slot: usize) -> (value: u32)
        requires
            self.inv(),
            slot < BUCKETS,
        ensures
            value == self.slot(slot as int),
    {
        match &self.buckets {
            Some(table) => table[slot],
            None => self.compact.read(slot),
        }
    }

    /// Whether a position fits the storage in use.
    pub open spec fn takes(&self, ix: int) -> bool {
        self.buckets is None ==> ix < SMALL_SLOTS_MAX_INPUT
    }

    /// Writes a slot.
    fn write(&mut self, slot: usize, value: u32)
        requires
            old(self).inv(),
            slot < BUCKETS,
            old(self).takes(value as int),
        ensures
            final(self).inv(),
            final(self).buckets is None == old(self).buckets is None,
            forall|i: int|
                0 <= i < BUCKETS ==> #[trigger] final(self).slot(i) == if i == slot {
                    value
                } else {
                    old(self).slot(i)
                },
    {
        let ghost before = *self;
        match self.buckets.take() {
            Some(mut table) => {
                table.set(slot, value);
                self.buckets = Some(table);
            },
            None => {
                self.compact.write(slot, value);
            },
        }
    }

    /// Records a position in its slot.
    pub fn record(&mut self, data: &[u8], mask: usize, ix: usize)
        requires
            old(self).inv(),
            old(self).takes(ix as int),
            ix <= u32::MAX,
        ensures
            final(self).inv(),
            final(self).buckets is None == old(self).buckets is None,
            forall|i: int|
                0 <= i < BUCKETS ==> #[trigger] final(self).slot(i) == if i == Self::home_slot(
                    Self::key_of(data@, (ix & mask) as int),
                    ix as int,
                ) {
                    ix as u32
                } else {
                    old(self).slot(i)
                },
    {
        let key: usize = Self::hash(data, ix & mask);
        let slot: usize = Self::slot_of(key, ix);
        self.write(slot, ix as u32);
    }
}

impl<
    const BUCKETS: usize,
    const SWEEP_BITS: u32,
    const HASH_LEN: u32,
    const USE_DICTIONARY: bool,
    const COMPACT: bool,
> QuickMatcher<BUCKETS, SWEEP_BITS, HASH_LEN, USE_DICTIONARY, COMPACT> {
    /// What a search leaves before any dictionary is consulted: the last
    /// distance first, which settles a single-slot search, then the sweep.
    pub open spec fn result(&self, query: &MatchQuery, out: SearchResult) -> SearchResult {
        let cached = quick_cached(query, out);
        if Self::width() == 1 && cached.score > out.score {
            cached
        } else {
            quick_sweep(
                query,
                |i: int| self.slot(i),
                BUCKETS as int,
                Self::key_of(query.data@, query.here()),
                0,
                Self::width(),
                cached.len as int,
                cached,
            )
        }
    }

    /// Whether a search that found nothing asks the dictionary: always after a
    /// sweep, but after a single slot only if its position was worth measuring.
    pub open spec fn consults(&self, query: &MatchQuery, out: SearchResult) -> bool {
        let prev = self.slot(Self::key_of(query.data@, query.here()));
        &&& USE_DICTIONARY
        &&& self.result(query, out).score == out.score
        &&& Self::width() == 1 ==> 1 <= query.cur_ix - prev <= query.max_backward
            && search::byte_at(query.data@, query.here() + out.len) == search::byte_at(
            query.data@,
            ((prev as usize) & query.mask) + out.len,
        )
    }

    /// Searches the last distance and the slots, recording the position.
    ///
    /// Returns whether the dictionary is to be consulted.
    fn search(&mut self, backend: Backend, query: &MatchQuery, out: &mut SearchResult) -> (asks: bool)
        requires
            old(self).inv(),
            old(self).takes(query.cur_ix as int),
            query.ready(),
            old(out).len <= MAX_MATCH,
        ensures
            final(self).inv(),
            final(self).buckets is None == old(self).buckets is None,
            *final(out) == old(self).result(query, *old(out)),
            asks == old(self).consults(query, *old(out)),
            final(out).score >= old(out).score,
            final(out).score > old(out).score ==> query.usable(*final(out)),
            final(out).score == old(out).score ==> *final(out) == *old(out),
            final(out).len <= MAX_MATCH,
            forall|i: int|
                0 <= i < BUCKETS ==> #[trigger] final(self).slot(i) == if i == Self::home_slot(
                    Self::key_of(query.data@, query.here()),
                    query.cur_ix as int,
                ) {
                    query.cur_ix as u32
                } else {
                    old(self).slot(i)
                },
    {
        let ghost before = *self;
        let ghost start = *out;
        let cur_ix: usize = query.cur_ix;
        let cur_ix_masked: usize = cur_ix & query.mask;
        let best_len_in: usize = out.len;
        let min_score: usize = out.score;
        let key: usize = Self::hash(query.data, cur_ix_masked);
        let home: usize = Self::slot_of(key, cur_ix);
        self.try_last_distance(backend, query, out);
        assert(*out == quick_cached(query, start));
        if SWEEP_BITS == 0 && out.score > min_score {
            self.write(home, cur_ix as u32);
            return false;
        }
        let width: usize = if SWEEP_BITS == 0 {
            1
        } else if SWEEP_BITS == 1 {
            2
        } else {
            4
        };
        let ghost cached = *out;
        let mut best_len: usize = out.len;
        let mut measured: bool = false;
        let mut sweep: usize = 0;
        let ghost held = |i: int| before.slot(i);
        let ghost whole = quick_sweep(
            query,
            held,
            BUCKETS as int,
            key as int,
            0,
            width as int,
            best_len as int,
            *out,
        );
        while sweep < width
            invariant
                self.inv(),
                *self == before,
                query.ready(),
                width == Self::width(),
                sweep <= width,
                cur_ix == query.cur_ix,
                cur_ix_masked == query.here(),
                key < BUCKETS,
                held == (|i: int| before.slot(i)),
                best_len <= MAX_MATCH,
                out.len <= MAX_MATCH,
                out.score >= min_score,
                out.score > min_score ==> query.usable(*out),
                out.score == min_score ==> *out == *old(out),
                sweep == 0 ==> best_len == best_len_in || width > 1,
                width == 1 ==> measured == (sweep == 1 && {
                    let prev = before.slot(key as int);
                    &&& 1 <= query.cur_ix - prev <= query.max_backward
                    &&& search::byte_at(query.data@, query.here() + best_len_in) == search::byte_at(
                        query.data@,
                        ((prev as usize) & query.mask) + best_len_in,
                    )
                }),
                quick_sweep(
                    query,
                    held,
                    BUCKETS as int,
                    key as int,
                    sweep as int,
                    width as int,
                    best_len as int,
                    *out,
                ) == whole,
            decreases width - sweep,
        {
            proof {
                vstd::arithmetic::div_mod::lemma_mod_bound(key + 8 * sweep, BUCKETS as int);
                if sweep == 0 {
                    vstd::arithmetic::div_mod::lemma_small_mod(key as nat, BUCKETS as nat);
                }
            }
            let slot: usize = (key + 8 * sweep) % BUCKETS;
            let previous: u32 = self.read(slot);
            let prev_ix: usize = (previous as usize) & query.mask;
            if (previous as usize) < cur_ix && cur_ix - previous as usize <= query.max_backward
                && read_u8(query.data, cur_ix_masked, best_len) == read_u8(
                query.data,
                prev_ix,
                best_len,
            ) {
                measured = true;
                let backward: usize = cur_ix - previous as usize;
                let len: usize = measure(
                    backend,
                    query.data,
                    prev_ix,
                    cur_ix_masked,
                    query.max_length,
                );
                if len >= 4 {
                    let score: usize = backward_reference_score(len, backward);
                    if out.score < score {
                        best_len = len;
                        out.len = len;
                        out.distance = backward;
                        out.score = score;
                        out.len_code_delta = 0;
                    }
                }
            }
            sweep += 1;
        }
        self.write(home, cur_ix as u32);
        USE_DICTIONARY && out.score == min_score && (SWEEP_BITS != 0 || measured)
    }

    /// Tries the last distance.
    fn try_last_distance(&self, backend: Backend, query: &MatchQuery, out: &mut SearchResult)
        requires
            query.ready(),
            old(out).len <= MAX_MATCH,
        ensures
            *final(out) == quick_cached(query, *old(out)),
            final(out).score >= old(out).score,
            final(out).score > old(out).score ==> query.usable(*final(out)),
            final(out).score == old(out).score ==> *final(out) == *old(out),
            final(out).len <= MAX_MATCH,
    {
        let cached: i32 = query.cache[0];
        let cur_ix_masked: usize = query.cur_ix & query.mask;
        if cached <= 0 || cached as usize > query.cur_ix {
            return;
        }
        let backward: usize = cached as usize;
        let prev_ix: usize = (query.cur_ix - backward) & query.mask;
        if read_u8(query.data, cur_ix_masked, out.len) == read_u8(query.data, prev_ix, out.len) {
            let len: usize = measure(backend, query.data, prev_ix, cur_ix_masked, query.max_length);
            if len >= 4 {
                let score: usize = backward_reference_score_using_last_distance(len);
                if out.score < score {
                    out.len = len;
                    out.distance = backward;
                    out.score = score;
                    out.len_code_delta = 0;
                }
            }
        }
    }
}

impl<
    const BUCKETS: usize,
    const SWEEP_BITS: u32,
    const HASH_LEN: u32,
    const USE_DICTIONARY: bool,
    const COMPACT: bool,
> Matcher for QuickMatcher<BUCKETS, SWEEP_BITS, HASH_LEN, USE_DICTIONARY, COMPACT> {
    open spec fn wf(&self) -> bool {
        self.inv()
    }

    open spec fn admits(&self, ix: int) -> bool {
        self.takes(ix)
    }

    open spec fn answers(
        &self,
        words: Words,
        backend: BackendKind,
        query: &MatchQuery,
        from: SearchResult,
        to: SearchResult,
    ) -> bool {
        if self.consults(query, from) {
            exists|word: Option<SearchResult>|
                #[trigger] query.consulted(words, self.result(query, from), true, word, to)
        } else {
            to == self.result(query, from)
        }
    }

    open spec fn hashed(&self) -> int {
        8
    }

    open spec fn looks_ahead(&self) -> int {
        8
    }

    open spec fn probes(&self) -> int {
        4
    }

    open spec fn follows(&self, before: &Self, data: Seq<u8>, mask: usize, ix: int) -> bool {
        forall|i: int|
            0 <= i < BUCKETS ==> #[trigger] self.slot(i) == if i == Self::home_slot(
                Self::key_of(data, ((ix as usize) & mask) as int),
                ix,
            ) {
                ix as u32
            } else {
                before.slot(i)
            }
    }

    fn hash_type_length(&self) -> usize {
        8
    }

    fn store_lookahead(&self) -> usize {
        8
    }

    fn last_distances_to_check(&self) -> usize {
        NUM_REMEMBERED_DISTANCES
    }

    fn prepare(&mut self, one_shot: bool, input_size: usize, data: &[u8], clear: bool) -> (sweep: Sweep)
        ensures
            sweep == if one_shot && input_size <= BUCKETS / 32 {
                Sweep::Partial
            } else {
                Sweep::Full
            },
            final(self).buckets is None <==> {
                &&& old(self).buckets is None
                &&& !clear
                &&& one_shot
                &&& input_size <= SMALL_SLOTS_MAX_INPUT
            },
            // A map that stays, and a table that is not cleared, keep what they hold.
            final(self).buckets is None || old(self).buckets is Some && !clear ==> forall|i: int|
                0 <= i < BUCKETS ==> #[trigger] final(self).slot(i) == old(self).slot(i),
            // A full sweep, or a table just allocated, holds nothing.
            (old(self).buckets is Some && clear && sweep == Sweep::Full) || (old(self).buckets is None
                && final(self).buckets is Some) ==> forall|i: int|
                0 <= i < BUCKETS ==> #[trigger] final(self).slot(i) == 0,
            // A partial sweep clears exactly the slots the input hashes to.
            old(self).buckets is Some && clear && sweep == Sweep::Partial ==> forall|i: int|
                0 <= i < BUCKETS ==> #[trigger] final(self).slot(i) == if Self::swept(
                    data@,
                    input_size as int,
                    i,
                ) {
                    0
                } else {
                    old(self).slot(i)
                },
    {
        let sweep: Sweep = if one_shot && input_size <= BUCKETS / 32 {
            Sweep::Partial
        } else {
            Sweep::Full
        };
        match self.buckets.take() {
            None => {
                if clear || !one_shot || input_size > SMALL_SLOTS_MAX_INPUT {
                    // A compact matcher past its first stream, or one whose
                    // stream the map cannot hold: a fresh table needs no
                    // clearing.
                    self.buckets = Some(vec![0u32; BUCKETS]);
                    self.compact = SmallSlots::default();
                } else if self.compact.entries.len() == 0 {
                    // A fresh map is sized for the input, so it never grows
                    // while the stream stores into it.
                    self.compact.reset(input_size);
                }
            },
            Some(table) => {
                if !clear {
                    self.buckets = Some(table);
                } else if matches!(sweep, Sweep::Partial) {
                    self.buckets = Some(Self::swept_table(table, data, input_size));
                } else {
                    self.buckets = Some(vec![0u32; BUCKETS]);
                }
            },
        }
        sweep
    }

    fn store(&mut self, data: &[u8], mask: usize, ix: usize) {
        self.record(data, mask, ix);
    }

    fn find_longest_match<D: DictionarySource>(
        &mut self,
        backend: Backend,
        dictionary: &mut D,
        query: &MatchQuery,
        out: &mut SearchResult,
    ) {
        let asks: bool = self.search(backend, query, out);
        if asks {
            query.search_dictionary(dictionary, out, true);
        }
    }
}

impl<
    const BUCKETS: usize,
    const SWEEP_BITS: u32,
    const HASH_LEN: u32,
    const USE_DICTIONARY: bool,
    const COMPACT: bool,
> QuickMatcher<BUCKETS, SWEEP_BITS, HASH_LEN, USE_DICTIONARY, COMPACT> {
    /// Whether one of the first `input_size` offsets hashes to a sweep that covers a slot.
    pub open spec fn swept(data: Seq<u8>, input_size: int, slot: int) -> bool {
        exists|offset: int, sweep: int|
            0 <= offset < input_size && 0 <= sweep < Self::width() && slot
                == #[trigger] Self::sweep_slot(data, offset, sweep)
    }

    /// A slot of the sweep the bytes at an offset hash to.
    pub open spec fn sweep_slot(data: Seq<u8>, offset: int, sweep: int) -> int {
        (Self::key_of(data, offset) + 8 * sweep) % (BUCKETS as int)
    }

    /// Clears the slots the first `input_size` offsets hash to.
    fn swept_table(table: Vec<u32>, data: &[u8], input_size: usize) -> (cleared: Vec<u32>)
        requires
            Self::shaped(),
            table@.len() == BUCKETS,
            input_size <= BUCKETS / 32,
        ensures
            cleared@.len() == BUCKETS,
            forall|i: int|
                0 <= i < BUCKETS ==> #[trigger] cleared@[i] == if Self::swept(
                    data@,
                    input_size as int,
                    i,
                ) {
                    0
                } else {
                    table@[i]
                },
    {
        let mut cleared: Vec<u32> = table;
        let width: usize = if SWEEP_BITS == 0 {
            1
        } else if SWEEP_BITS == 1 {
            2
        } else {
            4
        };
        let mut offset: usize = 0;
        while offset < input_size
            invariant
                Self::shaped(),
                width == Self::width(),
                offset <= input_size,
                cleared@.len() == BUCKETS,
                table@.len() == BUCKETS,
                forall|i: int|
                    0 <= i < BUCKETS ==> #[trigger] cleared@[i] == if Self::swept(
                        data@,
                        offset as int,
                        i,
                    ) {
                        0
                    } else {
                        table@[i]
                    },
            decreases input_size - offset,
        {
            let key: usize = Self::hash(data, offset);
            let mut sweep: usize = 0;
            while sweep < width
                invariant
                    Self::shaped(),
                    width == Self::width(),
                    sweep <= width,
                    key == Self::key_of(data@, offset as int),
                    key < BUCKETS,
                    cleared@.len() == BUCKETS,
                    table@.len() == BUCKETS,
                    forall|i: int|
                        0 <= i < BUCKETS ==> #[trigger] cleared@[i] == if Self::swept(
                            data@,
                            offset as int,
                            i,
                        ) || exists|s: int|
                            0 <= s < sweep && i == #[trigger] Self::sweep_slot(
                                data@,
                                offset as int,
                                s,
                            ) {
                            0
                        } else {
                            table@[i]
                        },
                decreases width - sweep,
            {
                proof {
                    vstd::arithmetic::div_mod::lemma_mod_bound(key + 8 * sweep, BUCKETS as int);
                }
                let slot: usize = (key + 8 * sweep) % BUCKETS;
                let ghost held = cleared@;
                cleared.set(slot, 0);
                proof {
                    assert(slot == Self::sweep_slot(data@, offset as int, sweep as int));
                    assert forall|i: int| 0 <= i < BUCKETS implies #[trigger] cleared@[i]
                        == if Self::swept(data@, offset as int, i) || exists|s: int|
                        0 <= s < sweep + 1 && i == #[trigger] Self::sweep_slot(
                            data@,
                            offset as int,
                            s,
                        ) {
                        0
                    } else {
                        table@[i]
                    } by {
                        if i != slot {
                            assert(cleared@[i] == held[i]);
                        }
                    }
                }
                sweep += 1;
            }
            proof {
                assert forall|i: int| 0 <= i < BUCKETS implies Self::swept(data@, offset + 1, i) == (
                Self::swept(data@, offset as int, i) || exists|s: int|
                    0 <= s < width && i == #[trigger] Self::sweep_slot(data@, offset as int, s)) by {
                    if Self::swept(data@, offset + 1, i) {
                        let (o, s) = choose|o: int, s: int|
                            0 <= o < offset + 1 && 0 <= s < Self::width() && i
                                == #[trigger] Self::sweep_slot(data@, o, s);
                        if o < offset {
                            assert(Self::swept(data@, offset as int, i));
                        }
                    }
                    if Self::swept(data@, offset as int, i) {
                        let (o, s) = choose|o: int, s: int|
                            0 <= o < offset && 0 <= s < Self::width() && i
                                == #[trigger] Self::sweep_slot(data@, o, s);
                        assert(Self::swept(data@, offset + 1, i));
                    }
                    if exists|s: int|
                        0 <= s < width && i == #[trigger] Self::sweep_slot(data@, offset as int, s) {
                        let s = choose|s: int|
                            0 <= s < width && i == #[trigger] Self::sweep_slot(
                                data@,
                                offset as int,
                                s,
                            );
                        assert(Self::swept(data@, offset + 1, i));
                    }
                }
            }
            offset += 1;
        }
        cleared
    }
}

/// The logarithm of a power of two is its exponent.
proof fn lemma_bucket_bits(buckets: usize, bits: int)
    requires
        math::is_pow2(buckets as int),
        256 <= buckets <= 0x10_0000,
        fast_log::is_log2_floor(buckets as int, bits),
    ensures
        bits == math::exponent(buckets as int),
        8 <= bits <= 20,
{
    let k = math::exponent(buckets as int);
    math::lemma_exponent(buckets as int);
    power2::lemma_pow2_unfold(k + 1);
    fast_log::lemma_log2_unique(buckets as int, bits, k as int);
    power2::lemma2_to64();
    if k < 8 {
        power2::lemma_pow2_strictly_increases(k, 8);
    }
    if k > 20 {
        power2::lemma_pow2_strictly_increases(20, k);
    }
}

/// The sweep reads its slots only inside the table.
proof fn lemma_sweep_agrees(
    query: &MatchQuery,
    left: spec_fn(int) -> u32,
    right: spec_fn(int) -> u32,
    buckets: int,
    key: int,
    sweep: int,
    width: int,
    best_len: int,
    out: SearchResult,
)
    requires
        buckets > 0,
        forall|i: int| 0 <= i < buckets ==> #[trigger] left(i) == right(i),
    ensures
        quick_sweep(query, left, buckets, key, sweep, width, best_len, out) == quick_sweep(
            query,
            right,
            buckets,
            key,
            sweep,
            width,
            best_len,
            out,
        ),
    decreases width - sweep,
{
    if sweep < width {
        let i = (key + 8 * sweep) % buckets;
        vstd::arithmetic::div_mod::lemma_mod_bound(key + 8 * sweep, buckets);
        assert(left(i) == right(i));
        let (next_len, next) = quick_judged(query, left(i), best_len, out);
        lemma_sweep_agrees(query, left, right, buckets, key, sweep + 1, width, next_len, next);
    }
}

/// The physical storage changes nothing: a matcher on its small map and one on
/// the full table that hold the same slots find the same match.
pub proof fn lemma_storage_agrees<
    const BUCKETS: usize,
    const SWEEP_BITS: u32,
    const HASH_LEN: u32,
    const USE_DICTIONARY: bool,
>(
    small: &QuickMatcher<BUCKETS, SWEEP_BITS, HASH_LEN, USE_DICTIONARY, true>,
    full: &QuickMatcher<BUCKETS, SWEEP_BITS, HASH_LEN, USE_DICTIONARY, false>,
    query: &MatchQuery,
    out: SearchResult,
)
    requires
        BUCKETS > 0,
        forall|i: int| 0 <= i < BUCKETS ==> #[trigger] small.slot(i) == full.slot(i),
    ensures
        small.result(query, out) == full.result(query, out),
{
    let left = |i: int| small.slot(i);
    let right = |i: int| full.slot(i);
    let cached = quick_cached(query, out);
    assert forall|i: int| 0 <= i < BUCKETS implies #[trigger] left(i) == right(i) by {
        assert(small.slot(i) == full.slot(i));
    }
    lemma_sweep_agrees(
        query,
        left,
        right,
        BUCKETS as int,
        QuickMatcher::<BUCKETS, SWEEP_BITS, HASH_LEN, USE_DICTIONARY, true>::key_of(
            query.data@,
            query.here(),
        ),
        0,
        QuickMatcher::<BUCKETS, SWEEP_BITS, HASH_LEN, USE_DICTIONARY, true>::width(),
        cached.len as int,
        cached,
    );
}

/// A longer match was taken on the way to a result, for a better score than at the start.
pub open spec fn was_overtaken(
    query: &MatchQuery,
    n: int,
    from: SearchResult,
    to: SearchResult,
    taken: SearchResult,
) -> bool {
    &&& taken.len >= n
    &&& query.genuine(taken.len as int, taken.distance as int)
    &&& from.score < taken.score <= to.score
}

/// A position in a slot is worth taking: it lies inside the window, repeats `n` bytes, four
/// at least, agrees one byte past the length to beat, and scores above the score to beat.
pub open spec fn is_worth_taking(query: &MatchQuery, prev: u32, n: int, from: SearchResult) -> bool {
    let distance = query.cur_ix - prev;
    &&& 1 <= distance <= query.max_backward
    &&& n >= 4
    &&& query.repeats(n, distance)
    &&& query.same_ahead(from.len as int, distance)
    &&& search::reference_score(n, distance) > from.score
}

/// A sweep that holds a position worth taking improves, and ends with that position's
/// score at least, unless a match as long was taken before the position was reached.
proof fn lemma_sweep_finds(
    query: &MatchQuery,
    slots: spec_fn(int) -> u32,
    buckets: int,
    key: int,
    sweep: int,
    width: int,
    k: int,
    n: int,
    from: SearchResult,
    out: SearchResult,
)
    requires
        query.ready(),
        sweep <= k < width,
        is_worth_taking(query, slots((key + 8 * k) % buckets), n, from),
        out == from || out.score > from.score && query.genuine(
            out.len as int,
            out.distance as int,
        ),
    ensures
        ({
            let to = quick_sweep(
                query,
                slots,
                buckets,
                key,
                sweep,
                width,
                out.len as int,
                out,
            );
            let distance = query.cur_ix - slots((key + 8 * k) % buckets);
            &&& to.score > from.score
            &&& to.score >= search::reference_score(n, distance) || exists|taken: SearchResult| #[trigger]
                was_overtaken(query, n, from, to, taken)
        }),
    decreases width - sweep,
{
    let prev = slots((key + 8 * sweep) % buckets);
    let (next_len, next) = quick_judged(query, prev, out.len as int, out);
    let to = quick_sweep(query, slots, buckets, key, sweep, width, out.len as int, out);
    lemma_judged(query, prev, out);
    lemma_sweep_keeps(query, slots, buckets, key, sweep + 1, width, next);
    if sweep < k {
        lemma_sweep_finds(query, slots, buckets, key, sweep + 1, width, k, n, from, next);
    } else {
        let distance = query.cur_ix - prev;
        query.lemma_measured(n, distance);
        if out.len < n {
            query.lemma_repeated_ahead(n, distance, out.len as int);
        }
        if out != from && out.len >= n {
            assert(was_overtaken(query, n, from, to, out));
        }
    }
}

/// Judging a position leaves what was there, or takes the whole repetition at it for its
/// score, which is better.
proof fn lemma_judged(query: &MatchQuery, prev: u32, out: SearchResult)
    requires
        query.ready(),
    ensures
        ({
            let (len, next) = quick_judged(query, prev, out.len as int, out);
            let distance = query.cur_ix - prev;
            &&& len == next.len
            &&& next != out ==> {
                &&& next.score > out.score
                &&& next.len >= 4
                &&& next.distance == distance
                &&& query.genuine(next.len as int, distance)
                &&& next.score == search::reference_score(next.len as int, distance)
            }
            &&& forall|n: int| #[trigger]
                query.repeats(n, distance) && n >= 4 && 1 <= distance <= query.max_backward
                    && query.same_ahead(out.len as int, distance) ==> next.score
                    >= search::reference_score(n, distance)
        }),
{
    let distance = query.cur_ix - prev;
    if 1 <= distance <= query.max_backward {
        let at = query.back(distance);
        search::lemma_agreement_is_longest(
            query.data@,
            at,
            query.here(),
            query.max_length as int,
        );
        let len = search::agreement(query.data@, at, query.here(), query.max_length as int);
        search::lemma_scores(len, distance);
        assert forall|n: int| #[trigger] query.repeats(n, distance) implies n <= len by {
            query.lemma_measured(n, distance);
        }
    }
}

/// A sweep never loses score.
proof fn lemma_sweep_keeps(
    query: &MatchQuery,
    slots: spec_fn(int) -> u32,
    buckets: int,
    key: int,
    sweep: int,
    width: int,
    out: SearchResult,
)
    requires
        query.ready(),
    ensures
        quick_sweep(query, slots, buckets, key, sweep, width, out.len as int, out).score
            >= out.score,
    decreases width - sweep,
{
    if sweep < width {
        let prev = slots((key + 8 * sweep) % buckets);
        let (next_len, next) = quick_judged(query, prev, out.len as int, out);
        lemma_judged(query, prev, out);
        lemma_sweep_keeps(query, slots, buckets, key, sweep + 1, width, next);
    }
}

/// Trying the last distance leaves what was there, or takes the whole repetition there.
proof fn lemma_cached(query: &MatchQuery, out: SearchResult)
    requires
        query.ready(),
    ensures
        ({
            let next = quick_cached(query, out);
            let distance = query.cache@[0] as int;
            &&& next != out ==> {
                &&& next.score > out.score
                &&& next.len >= 4
                &&& next.distance == distance
                &&& query.genuine(next.len as int, distance)
                &&& next.score == search::cached_score(next.len as int)
            }
            &&& forall|n: int| #[trigger]
                query.repeats(n, distance) && n >= 4 && query.same_ahead(out.len as int, distance)
                    ==> next.score >= search::cached_score(n)
        }),
{
    let distance = query.cache@[0] as int;
    if 1 <= distance <= query.cur_ix {
        let at = query.back(distance);
        search::lemma_agreement_is_longest(
            query.data@,
            at,
            query.here(),
            query.max_length as int,
        );
        let len = search::agreement(query.data@, at, query.here(), query.max_length as int);
        search::lemma_scores(len, distance);
        assert forall|n: int| #[trigger] query.repeats(n, distance) implies n <= len by {
            query.lemma_measured(n, distance);
        }
    }
}

impl<
    const BUCKETS: usize,
    const SWEEP_BITS: u32,
    const HASH_LEN: u32,
    const USE_DICTIONARY: bool,
    const COMPACT: bool,
> QuickMatcher<BUCKETS, SWEEP_BITS, HASH_LEN, USE_DICTIONARY, COMPACT> {
    /// A search misses nothing: where one of its slots holds a position inside the window
    /// that repeats at least four bytes, agrees one byte past the incoming length and
    /// scores above the incoming result, it finds a match with a better score than the
    /// incoming one.
    ///
    /// That match scores at least as much as the position, with two exceptions that
    /// the search makes on purpose. A single slot is not looked at once the last distance
    /// has won. And a slot is passed over if a match as long was taken before it was
    /// reached.
    pub proof fn lemma_search_is_complete(
        &self,
        query: &MatchQuery,
        from: SearchResult,
        k: int,
        n: int,
    )
        requires
            query.ready(),
            0 <= k < Self::width(),
            is_worth_taking(
                query,
                self.slot(
                    (Self::key_of(query.data@, query.here()) + 8 * k) % (BUCKETS as int),
                ),
                n,
                from,
            ),
        ensures
            ({
                let to = self.result(query, from);
                let prev = self.slot(
                    (Self::key_of(query.data@, query.here()) + 8 * k) % (BUCKETS as int),
                );
                &&& to.score > from.score
                &&& {
                    ||| to.score >= search::reference_score(n, query.cur_ix - prev)
                    ||| SWEEP_BITS == 0 && to.distance == query.cache@[0] && to.score
                        == search::cached_score(to.len as int)
                    ||| exists|taken: SearchResult| #[trigger]
                        was_overtaken(query, n, from, to, taken)
                }
            }),
    {
        let cached = quick_cached(query, from);
        lemma_cached(query, from);
        let held = |i: int| self.slot(i);
        let key = Self::key_of(query.data@, query.here());
        let at = (key + 8 * k) % (BUCKETS as int);
        assert(held(at) == self.slot(at));
        lemma_sweep_finds(
            query,
            held,
            BUCKETS as int,
            key,
            0,
            Self::width(),
            k,
            n,
            from,
            cached,
        );
    }

    /// A search that holds a single position and whose last distance does not win finds
    /// that position's score at least.
    pub proof fn lemma_first_slot_is_found(&self, query: &MatchQuery, from: SearchResult, n: int)
        requires
            query.ready(),
            quick_cached(query, from).score == from.score,
            is_worth_taking(
                query,
                self.slot(Self::key_of(query.data@, query.here()) % (BUCKETS as int)),
                n,
                from,
            ),
        ensures
            self.result(query, from).score >= search::reference_score(
                n,
                query.cur_ix - self.slot(
                    Self::key_of(query.data@, query.here()) % (BUCKETS as int),
                ),
            ),
    {
        lemma_cached(query, from);
        let held = |i: int| self.slot(i);
        let key = Self::key_of(query.data@, query.here());
        let prev = self.slot(key % (BUCKETS as int));
        assert(held((key + 8 * 0) % (BUCKETS as int)) == prev);
        let (len, next) = quick_judged(query, prev, from.len as int, from);
        lemma_judged(query, prev, from);
        lemma_sweep_keeps(query, held, BUCKETS as int, key, 1, Self::width(), next);
    }

    /// A repetition of at least four bytes at the last distance is never missed: the match
    /// that is found scores at least what it does.
    pub proof fn lemma_last_distance_is_found(&self, query: &MatchQuery, from: SearchResult, n: int)
        requires
            query.ready(),
            n >= 4,
            query.repeats(n, query.cache@[0] as int),
            query.same_ahead(from.len as int, query.cache@[0] as int),
        ensures
            self.result(query, from).score >= search::cached_score(n),
    {
        let cached = quick_cached(query, from);
        lemma_cached(query, from);
        lemma_sweep_keeps(
            query,
            |i: int| self.slot(i),
            BUCKETS as int,
            Self::key_of(query.data@, query.here()),
            0,
            Self::width(),
            cached,
        );
    }

    /// Only the bytes that feed the hash decide the bucket.
    pub proof fn lemma_same_bytes_same_bucket(data: Seq<u8>, left: int, right: int)
        requires
            Self::shaped(),
            0 <= left,
            0 <= right,
            left + 8 <= data.len(),
            right + 8 <= data.len(),
            forall|k: int| 0 <= k < HASH_LEN ==> #[trigger] data[left + k] == data[right + k],
        ensures
            Self::key_of(data, left) == Self::key_of(data, right),
    {
        let b = data.subrange(left, left + 8);
        let c = data.subrange(right, right + 8);
        let x: u64 = math::word_of(b);
        let y: u64 = math::word_of(c);
        let hashed: u64 = HASH_LEN as u64;
        math::lemma_word_of(b);
        math::lemma_word_of(c);
        assert forall|k: int| 0 <= k < HASH_LEN implies math::word_byte(x, k) == math::word_byte(
            y,
            k,
        ) by {
            assert(b[k] == data[left + k] && c[k] == data[right + k]);
        }
        math::lemma_low_bytes_shifted(x, y, hashed);
    }

    /// A position that was stored is looked at where the bytes that were hashed come
    /// again, as long as no other position was stored in its slot: a match is then found
    /// if the position is worth taking.
    pub proof fn lemma_stored_is_found(
        &self,
        before: &Self,
        query: &MatchQuery,
        from: SearchResult,
        ix: u32,
        n: int,
    )
        requires
            Self::shaped(),
            query.ready(),
            self.follows(before, query.data@, query.mask, ix as int),
            ((ix as usize) & query.mask) + 8 <= query.data@.len(),
            query.here() + 8 <= query.data@.len(),
            n >= HASH_LEN,
            is_worth_taking(query, ix, n, from),
        ensures
            self.result(query, from).score > from.score,
    {
        let key = Self::key_of(query.data@, query.here());
        let held = ((ix as usize) & query.mask) as int;
        assert forall|i: int| 0 <= i < HASH_LEN implies #[trigger] query.data@[held + i]
            == query.data@[query.here() + i] by {
            assert(query.data@.skip(held)[i] == query.data@.skip(query.here())[i]);
        }
        Self::lemma_same_bytes_same_bucket(query.data@, held, query.here());
        let k = (ix as int / 8) % Self::width();
        let at = (key + 8 * k) % (BUCKETS as int);
        vstd::arithmetic::div_mod::lemma_mod_bound(key + 8 * k, BUCKETS as int);
        assert(at == Self::home_slot(key, ix as int));
        assert(self.slot(at) == ix);
        self.lemma_search_is_complete(query, from, k, n);
    }
}

} // verus!
