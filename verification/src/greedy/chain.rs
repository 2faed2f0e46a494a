//! Forgetful-chain match finder: chains of deltas in shared, circular banks.
use vstd::arithmetic::div_mod;
use vstd::arithmetic::power2;
use vstd::bits;
use vstd::prelude::*;

use crate::backend::{Backend, BackendKind};
use crate::greedy::matcher::{DictionarySource, Matcher, Words};
use crate::greedy::search;
use crate::greedy::search::{
    backward_reference_penalty_using_last_distance, backward_reference_score,
    backward_reference_score_using_last_distance, measure, read_u32, write_back, Found, MatchQuery,
    SearchResult, Sweep, HASH_MUL32, MAX_MATCH,
};
use crate::math;
use crate::shared::capacity;
use crate::shared::capacity::{held_by, total};

verus! {

/// Number of buckets the forgetful chain hashes into.
pub const CHAIN_BUCKET_SIZE: usize = 32768;

/// Number of truncated hashes kept, one per position modulo this.
pub const CHAIN_TINY_SIZE: usize = 65536;

/// Address value that terminates a chain after its first node.
///
/// Positions never reach three gibibytes plus sixty-four mebibytes, so a bucket
/// seeded with this never leads back into a window.
pub const CHAIN_EMPTY_ADDR: u32 = 0xCCCC_CCCC;

/// Head value the partial preparation seeds a bucket with.
pub const CHAIN_EMPTY_HEAD: u16 = 0xCCCC;

/// Shape of a forgetful-chain match finder.
#[derive(Copy, Clone, Debug, PartialEq, Eq, Structural)]
pub struct ChainShape {
    /// Number of storage banks.
    pub num_banks: usize,
    /// Logarithm of the slots one bank holds.
    pub bank_bits: u32,
    /// How many cached distances a search probes.
    pub last_distances: usize,
    /// How many chain nodes a search visits.
    pub max_hops: usize,
}

/// One node of a forgetful chain.
#[derive(Copy, Clone, Debug, PartialEq, Eq, Structural)]
pub struct ChainSlot {
    /// How far back the previous position of the chain lies, capped.
    pub delta: u16,
    /// The bank slot of the previous node.
    pub next: u16,
}

/// Forgetful-chain match finder.
///
/// Chains share storage banks, so old nodes are overwritten rather than freed
/// and several chains may end up sharing a tail. A one-byte truncated hash
/// rejects cached-distance candidates before they are compared.
///
/// A bank is only materialised when a chain first touches it; until then each
/// of its nodes reads as zero.
pub struct ChainMatcher<const NUM_BANKS: usize, const BANK_BITS: u32> {
    /// Newest position of each bucket.
    pub addr: Vec<u32>,
    /// Bank slot of each bucket's newest node.
    pub head: Vec<u16>,
    /// Truncated hash of each recent position.
    pub tiny_hash: Vec<u8>,
    /// Nodes of the materialised banks.
    pub slots: Vec<ChainSlot>,
    /// Offset of each materialised bank plus one; zero for the others.
    pub bank_offsets: Vec<u32>,
    /// Next slot each bank hands out, before wrapping.
    pub free_slot_idx: Vec<u16>,
    /// How many cached distances a search probes.
    pub last_distances: usize,
    /// How many chain nodes a search visits.
    pub max_hops: usize,
}

/// How many banks have an offset.
pub open spec fn nonzero(offsets: Seq<u32>) -> nat {
    math::tally(offsets, |offset: u32| offset != 0)
}

/// The delta a node stores: the step from the bucket's previous position, capped.
pub open spec fn capped_delta(ix: int, previous: int) -> u16 {
    if 0 <= ix - previous <= 0xFFFF {
        (ix - previous) as u16
    } else {
        0xFFFF
    }
}

/// What a cached distance is worth to a chain search: its length and score if it
/// beats `best_score`. Two agreeing bytes are enough for any of them.
pub open spec fn chain_verdict(query: &MatchQuery, index: int, best_score: int) -> Option<
    (int, int),
> {
    let distance = query.cache@[index] as int;
    let len = search::agreement(
        query.data@,
        query.back(distance),
        query.here(),
        query.max_length as int,
    );
    let score = search::cached_score(len) - if index == 0 {
        0
    } else {
        search::cached_penalty(index)
    };
    if len >= 2 && best_score < score {
        Some((len, score))
    } else {
        None
    }
}

/// Whether a cached distance is tried: it leads into the window, and unless it
/// is the last distance, the truncated hash recorded there agrees.
pub open spec fn chain_probes(query: &MatchQuery, tiny: Seq<u8>, tag: u8, index: int) -> bool {
    &&& search::probes(query, index)
    &&& index > 0 ==> tiny[(query.cur_ix - query.cache@[index]) % 65536] == tag
}

/// What the cached distances from `index` on leave as the length to beat and the
/// match found.
pub open spec fn chain_probed(
    query: &MatchQuery,
    tiny: Seq<u8>,
    tag: u8,
    index: int,
    limit: int,
    best_len: int,
    found: Found,
) -> (int, Found)
    decreases limit - index,
{
    if index >= limit {
        (best_len, found)
    } else if !chain_probes(query, tiny, tag, index) {
        chain_probed(query, tiny, tag, index + 1, limit, best_len, found)
    } else {
        match chain_verdict(query, index, found.score as int) {
            Some((len, score)) => chain_probed(
                query,
                tiny,
                tag,
                index + 1,
                limit,
                len,
                Found {
                    len: len as usize,
                    distance: query.cache@[index] as usize,
                    score: score as usize,
                },
            ),
            None => chain_probed(query, tiny, tag, index + 1, limit, best_len, found),
        }
    }
}

/// What one chain position does to the length to beat and the match found.
///
/// A position counts if the four bytes that end one past the best length agree
/// and it repeats at least four bytes for a better score.
pub open spec fn chain_judged(
    query: &MatchQuery,
    backward: int,
    best_len: int,
    found: Found,
) -> (int, Found) {
    let at = query.back(backward);
    let len = search::agreement(query.data@, at, query.here(), query.max_length as int);
    let score = search::reference_score(len, backward);
    if backward >= 1 && query.here() + best_len <= query.mask && at + best_len <= query.mask
        && search::half_at(query.data@, query.here() + best_len - 3) == search::half_at(
        query.data@,
        at + best_len - 3,
    ) && len >= 4 && found.score < score {
        (len, Found { len: len as usize, distance: backward as usize, score: score as usize })
    } else {
        (best_len, found)
    }
}

/// What the rest of a chain leaves as the match found: `hops` more nodes, the
/// next position `delta` further back and its node at `slot`.
pub open spec fn chain_walked(
    query: &MatchQuery,
    nodes: spec_fn(int) -> ChainSlot,
    hops: int,
    backward: int,
    delta: int,
    slot: int,
    best_len: int,
    found: Found,
) -> Found
    decreases hops,
{
    if hops <= 0 || backward + delta > query.max_backward {
        found
    } else {
        let (next_len, next) = chain_judged(query, backward + delta, best_len, found);
        let node = nodes(slot);
        chain_walked(
            query,
            nodes,
            hops - 1,
            backward + delta,
            node.delta as int,
            node.next as int,
            next_len,
            next,
        )
    }
}

impl<const NUM_BANKS: usize, const BANK_BITS: u32> ChainMatcher<NUM_BANKS, BANK_BITS> {
    /// Slots one bank holds.
    pub open spec fn bank_size() -> int {
        power2::pow2(BANK_BITS as nat) as int
    }

    /// The shape is one the encoder uses.
    pub open spec fn shaped() -> bool {
        &&& math::is_pow2(NUM_BANKS as int)
        &&& NUM_BANKS <= 512
        &&& BANK_BITS <= 16
    }

    /// The bucket of the bytes at an offset.
    pub open spec fn key_of(data: Seq<u8>, offset: int) -> int {
        (search::half_at(data, offset).wrapping_mul(HASH_MUL32) >> 17u32) as int
    }

    /// The bank a bucket's chain lives in.
    pub open spec fn bank_of(key: int) -> int {
        key % (NUM_BANKS as int)
    }

    /// A node of a bank; one never materialised reads as zero.
    pub open spec fn node(&self, bank: int, slot: int) -> ChainSlot {
        if self.bank_offsets@[bank] == 0 {
            ChainSlot { delta: 0, next: 0 }
        } else {
            self.slots@[self.bank_offsets@[bank] - 1 + slot]
        }
    }

    /// The tables have their sizes and no two materialised banks overlap.
    pub open spec fn inv(&self) -> bool {
        &&& Self::shaped()
        &&& self.addr@.len() == CHAIN_BUCKET_SIZE
        &&& self.head@.len() == CHAIN_BUCKET_SIZE
        &&& self.tiny_hash@.len() == CHAIN_TINY_SIZE
        &&& self.bank_offsets@.len() == NUM_BANKS
        &&& self.free_slot_idx@.len() == NUM_BANKS
        &&& 4 <= self.last_distances <= 16
        &&& self.slots@.len() == nonzero(self.bank_offsets@) * Self::bank_size()
        &&& forall|b: int|
            0 <= b < NUM_BANKS && #[trigger] self.bank_offsets@[b] != 0 ==> self.bank_offsets@[b]
                - 1 + Self::bank_size() <= self.slots@.len()
        &&& forall|b: int, c: int|
            0 <= b < c < NUM_BANKS && #[trigger] self.bank_offsets@[b] != 0
                && #[trigger] self.bank_offsets@[c] != 0 ==> self.bank_offsets@[b]
                + Self::bank_size() <= self.bank_offsets@[c] || self.bank_offsets@[c]
                + Self::bank_size() <= self.bank_offsets@[b]
    }

    /// Two finders hold the same chains.
    pub open spec fn same_chains(&self, other: &Self) -> bool {
        &&& self.addr@ == other.addr@
        &&& self.head@ == other.head@
        &&& self.tiny_hash@ == other.tiny_hash@
        &&& self.free_slot_idx@ == other.free_slot_idx@
        &&& self.last_distances == other.last_distances
        &&& self.max_hops == other.max_hops
        &&& forall|b: int, i: int|
            0 <= b < NUM_BANKS && 0 <= i < Self::bank_size() ==> #[trigger] self.node(b, i)
                == other.node(b, i)
    }

    /// What the items in use take.
    pub open spec fn least_bytes(&self) -> int {
        4int * self.addr@.len() + 2 * self.head@.len() + self.tiny_hash@.len() + 4
            * self.slots@.len() + 4 * self.bank_offsets@.len() + 2
            * self.free_slot_idx@.len()
    }

    /// Returns how many bytes the chains hold on to.
    pub fn retained_bytes(&self) -> (bytes: usize)
        ensures
            capacity::covers(bytes, self.least_bytes()),
    {
        let buckets: usize = total(held_by(&self.addr, 4), held_by(&self.head, 2));
        let nodes: usize = total(held_by(&self.tiny_hash, 1), held_by(&self.slots, 4));
        let banks: usize = total(held_by(&self.bank_offsets, 4), held_by(&self.free_slot_idx, 2));
        total(total(buckets, nodes), banks)
    }

    /// Creates an empty chain table of the given shape.
    pub fn new(shape: ChainShape) -> (matcher: Self)
        requires
            Self::shaped(),
            shape.num_banks == NUM_BANKS,
            shape.bank_bits == BANK_BITS,
            4 <= shape.last_distances <= 16,
        ensures
            matcher.inv(),
            matcher.last_distances == shape.last_distances,
            matcher.max_hops == shape.max_hops,
            forall|k: int| 0 <= k < CHAIN_BUCKET_SIZE ==> #[trigger] matcher.addr@[k] == CHAIN_EMPTY_ADDR,
            forall|k: int| 0 <= k < CHAIN_BUCKET_SIZE ==> #[trigger] matcher.head@[k] == 0,
            forall|k: int| 0 <= k < CHAIN_TINY_SIZE ==> #[trigger] matcher.tiny_hash@[k] == 0,
            forall|b: int| 0 <= b < NUM_BANKS ==> #[trigger] matcher.free_slot_idx@[b] == 0,
            forall|b: int, i: int|
                0 <= b < NUM_BANKS && 0 <= i < Self::bank_size() ==> #[trigger] matcher.node(b, i)
                    == (ChainSlot { delta: 0, next: 0 }),
    {
        let bank_offsets: Vec<u32> = vec![0u32; NUM_BANKS];
        proof {
            math::lemma_tally_none(bank_offsets@, |offset: u32| offset != 0);
        }
        ChainMatcher {
            addr: vec![CHAIN_EMPTY_ADDR; CHAIN_BUCKET_SIZE],
            head: vec![0u16; CHAIN_BUCKET_SIZE],
            tiny_hash: vec![0u8; CHAIN_TINY_SIZE],
            slots: Vec::new(),
            bank_offsets,
            free_slot_idx: vec![0u16; NUM_BANKS],
            last_distances: shape.last_distances,
            max_hops: shape.max_hops,
        }
    }

    /// Returns the bucket of the bytes at `offset`.
    pub fn hash(data: &[u8], offset: usize) -> (key: usize)
        ensures
            key == Self::key_of(data@, offset as int),
            key < CHAIN_BUCKET_SIZE,
    {
        let product: u32 = read_u32(data, offset).wrapping_mul(HASH_MUL32);
        proof {
            bits::lemma_u32_shr_is_div(product, 17u32);
            power2::lemma2_to64();
            assert(product / 131072 < 32768);
        }
        (product >> 17u32) as usize
    }

    /// Returns how many slots a bank holds.
    fn slots_per_bank() -> (size: usize)
        requires
            Self::shaped(),
        ensures
            size == Self::bank_size(),
            1 <= size <= 65536,
    {
        proof {
            math::lemma_one_shl(BANK_BITS as usize);
            power2::lemma_pow2_pos(BANK_BITS as nat);
            power2::lemma2_to64();
            if BANK_BITS < 16 {
                power2::lemma_pow2_strictly_increases(BANK_BITS as nat, 16);
            }
        }
        1usize << (BANK_BITS as usize)
    }

    /// Materialises a bank without changing what any bank holds; returns where
    /// its slots begin.
    fn activate_bank(&mut self, bank: usize) -> (start: usize)
        requires
            old(self).inv(),
            bank < NUM_BANKS,
        ensures
            final(self).inv(),
            final(self).same_chains(old(self)),
            final(self).bank_offsets@[bank as int] == start + 1,
            start + Self::bank_size() <= final(self).slots@.len(),
            final(self).slots@.len() <= 0x200_0000,
    {
        let size: usize = Self::slots_per_bank();
        proof {
            math::lemma_tally_bound(self.bank_offsets@, |offset: u32| offset != 0);
            let set = nonzero(self.bank_offsets@) as int;
            assert(set * size <= 512 * 65536) by (nonlinear_arith)
                requires
                    0 <= set <= 512,
                    0 <= size <= 65536,
            ;
        }
        let offset: u32 = self.bank_offsets[bank];
        if offset != 0 {
            return (offset - 1) as usize;
        }
        let start: usize = self.slots.len();
        let ghost before = *self;
        proof {
            math::lemma_tally_update(
                self.bank_offsets@,
                |offset: u32| offset != 0,
                bank as int,
                (start + 1) as u32,
            );
            let set = nonzero(self.bank_offsets@) as int;
            assert(set * size + size == (set + 1) * size) by (nonlinear_arith);
            assert((set + 1) * size <= 512 * 65536) by (nonlinear_arith)
                requires
                    0 <= set < 512,
                    0 <= size <= 65536,
            ;
        }
        let mut added: usize = 0;
        while added < size
            invariant
                added <= size,
                start + size <= 0x200_0000,
                start == before.slots@.len(),
                self.slots@.len() == start + added,
                self.bank_offsets == before.bank_offsets,
                self.addr == before.addr,
                self.head == before.head,
                self.tiny_hash == before.tiny_hash,
                self.free_slot_idx == before.free_slot_idx,
                self.last_distances == before.last_distances,
                self.max_hops == before.max_hops,
                forall|i: int| 0 <= i < start ==> #[trigger] self.slots@[i] == before.slots@[i],
                forall|i: int|
                    start <= i < start + added ==> #[trigger] self.slots@[i] == (ChainSlot {
                        delta: 0,
                        next: 0,
                    }),
            decreases size - added,
        {
            self.slots.push(ChainSlot { delta: 0, next: 0 });
            added += 1;
        }
        self.bank_offsets.set(bank, start as u32 + 1);
        proof {
            assert forall|b: int, i: int|
                0 <= b < NUM_BANKS && 0 <= i < Self::bank_size() implies #[trigger] self.node(b, i)
                == old(self).node(b, i) by {
                if b != bank && before.bank_offsets@[b] != 0 {
                    assert(before.bank_offsets@[b] - 1 + Self::bank_size() <= before.slots@.len());
                }
            }
        }
        start
    }

    /// Records a position at the head of its bucket's chain.
    fn record(&mut self, data: &[u8], mask: usize, ix: usize)
        requires
            old(self).inv(),
            ix <= u32::MAX,
        ensures
            final(self).inv(),
            final(self).recorded(old(self), data@, mask, ix as int),
    {
        let key: usize = Self::hash(data, ix & mask);
        let size: usize = Self::slots_per_bank();
        proof {
            math::lemma_exponent(NUM_BANKS as int);
            math::lemma_exponent_fits(NUM_BANKS);
            math::lemma_mask_is_mod(key, NUM_BANKS, math::exponent(NUM_BANKS as int));
        }
        let bank: usize = key & (NUM_BANKS - 1);
        let bank_base: usize = self.activate_bank(bank);
        let ghost before = *self;
        let free: u16 = self.free_slot_idx[bank];
        self.free_slot_idx.set(bank, free.wrapping_add(1));
        proof {
            math::lemma_mask_is_mod(free as usize, size, BANK_BITS as nat);
        }
        let idx: usize = (free as usize) & (size - 1);
        let previous: u32 = self.addr[key];
        self.tiny_hash.set(ix % CHAIN_TINY_SIZE, (key % 256) as u8);
        let delta: u16 = if ix >= previous as usize && ix - previous as usize <= 0xFFFF {
            (ix - previous as usize) as u16
        } else {
            0xFFFF
        };
        let next: u16 = self.head[key];
        self.slots.set(bank_base + idx, ChainSlot { delta, next });
        self.addr.set(key, ix as u32);
        self.head.set(key, idx as u16);
        proof {
            assert forall|b: int, i: int|
                0 <= b < NUM_BANKS && 0 <= i < Self::bank_size() implies #[trigger] self.node(b, i)
                == if b == bank && i == idx {
                ChainSlot { delta, next }
            } else {
                old(self).node(b, i)
            } by {
                assert(before.node(b, i) == old(self).node(b, i));
                if b != bank && self.bank_offsets@[b] != 0 {
                    assert(self.bank_offsets@[bank as int] != 0);
                    assert(before.bank_offsets@[b] - 1 + Self::bank_size() <= before.slots@.len());
                    if b < bank {
                        assert(before.bank_offsets@[b] + Self::bank_size()
                            <= before.bank_offsets@[bank as int] || before.bank_offsets@[bank as int]
                            + Self::bank_size() <= before.bank_offsets@[b]);
                    } else {
                        assert(before.bank_offsets@[bank as int] + Self::bank_size()
                            <= before.bank_offsets@[b] || before.bank_offsets@[b]
                            + Self::bank_size() <= before.bank_offsets@[bank as int]);
                    }
                }
            }
        }
    }

    /// The finder is another one with a position put at the head of its chain.
    pub open spec fn recorded(&self, before: &Self, data: Seq<u8>, mask: usize, ix: int) -> bool {
        let key = Self::key_of(data, ((ix as usize) & mask) as int);
        let bank = Self::bank_of(key);
        let free = before.free_slot_idx@[bank];
        let slot = free as int % Self::bank_size();
        &&& self.addr@ == before.addr@.update(key, ix as u32)
        &&& self.head@ == before.head@.update(key, slot as u16)
        &&& self.tiny_hash@ == before.tiny_hash@.update(ix % 65536, (key % 256) as u8)
        &&& self.free_slot_idx@ == before.free_slot_idx@.update(bank, free.wrapping_add(1))
        &&& self.last_distances == before.last_distances
        &&& self.max_hops == before.max_hops
        &&& forall|b: int, i: int|
            0 <= b < NUM_BANKS && 0 <= i < Self::bank_size() ==> #[trigger] self.node(b, i) == if b
                == bank && i == slot {
                ChainSlot {
                    delta: capped_delta(ix, before.addr@[key] as int),
                    next: before.head@[key],
                }
            } else {
                before.node(b, i)
            }
    }
}

impl<const NUM_BANKS: usize, const BANK_BITS: u32> ChainMatcher<NUM_BANKS, BANK_BITS> {
    /// Nodes of the bank a bucket's chain lives in; slot numbers wrap.
    pub open spec fn chain_nodes(&self, key: int) -> spec_fn(int) -> ChainSlot {
        |slot: int| self.node(Self::bank_of(key), slot % Self::bank_size())
    }

    /// What a search finds: the cached distances first, then the chain.
    pub open spec fn result(&self, query: &MatchQuery, out: SearchResult) -> Found {
        let key = Self::key_of(query.data@, query.here());
        let (probed_len, probed) = chain_probed(
            query,
            self.tiny_hash@,
            (key % 256) as u8,
            0,
            self.last_distances as int,
            out.len as int,
            Found { len: 0, distance: 0, score: out.score },
        );
        if self.addr@[key] > query.cur_ix {
            probed
        } else {
            chain_walked(
                query,
                self.chain_nodes(key),
                self.max_hops as int,
                0,
                query.cur_ix - self.addr@[key],
                self.head@[key] as int,
                if probed_len < 3 {
                    3
                } else {
                    probed_len
                },
                probed,
            )
        }
    }

    /// Tries the cached distances.
    fn probe(&self, backend: Backend, query: &MatchQuery, tag: u8, out: &SearchResult) -> (seed: (
        usize,
        Found,
    ))
        requires
            self.inv(),
            query.wf(),
            out.len <= MAX_MATCH,
        ensures
            (seed.0 as int, seed.1) == chain_probed(
                query,
                self.tiny_hash@,
                tag,
                0,
                self.last_distances as int,
                out.len as int,
                Found { len: 0, distance: 0, score: out.score },
            ),
            seed.0 <= MAX_MATCH,
            seed.1.sound(query),
            seed.1.score >= out.score,
            seed.1.len > 0 ==> seed.1.len >= 2 && seed.1.score > out.score,
            seed.1.len == 0 ==> seed.1.score == out.score,
    {
        let cur_ix: usize = query.cur_ix;
        let cur_ix_masked: usize = cur_ix & query.mask;
        let mut best_len: usize = out.len;
        let mut found = Found { len: 0, distance: 0, score: out.score };
        let limit: usize = self.last_distances;
        let ghost whole = chain_probed(
            query,
            self.tiny_hash@,
            tag,
            0,
            limit as int,
            best_len as int,
            found,
        );
        let mut index: usize = 0;
        while index < limit
            invariant
                self.inv(),
                query.wf(),
                index <= limit <= 16,
                cur_ix == query.cur_ix,
                cur_ix_masked == query.cur_ix & query.mask,
                best_len <= MAX_MATCH,
                found.sound(query),
                found.score >= out.score,
                found.len > 0 ==> found.len >= 2 && found.score > out.score,
                found.len == 0 ==> found.score == out.score,
                chain_probed(
                    query,
                    self.tiny_hash@,
                    tag,
                    index as int,
                    limit as int,
                    best_len as int,
                    found,
                ) == whole,
            decreases limit - index,
        {
            let cached: i32 = query.cache[index];
            if cached <= 0 || cached as usize > query.max_backward {
                index += 1;
                continue;
            }
            let backward: usize = cached as usize;
            let previous: usize = cur_ix - backward;
            // The last distance is worth trying even for a two-byte match, so it
            // skips the truncated-hash rejection.
            if index > 0 && self.tiny_hash[previous % CHAIN_TINY_SIZE] != tag {
                index += 1;
                continue;
            }
            let prev_ix: usize = previous & query.mask;
            let len: usize = measure(backend, query.data, prev_ix, cur_ix_masked, query.max_length);
            if len >= 2 {
                let whole_score: usize = backward_reference_score_using_last_distance(len);
                let score: usize = if index != 0 {
                    whole_score - backward_reference_penalty_using_last_distance(index)
                } else {
                    whole_score
                };
                if found.score < score {
                    best_len = len;
                    found = Found { len, distance: backward, score };
                }
            }
            index += 1;
        }
        (best_len, found)
    }

    /// Walks the chain of a bucket.
    fn walk(
        &self,
        backend: Backend,
        query: &MatchQuery,
        key: usize,
        bank_base: usize,
        seed_len: usize,
        seed: Found,
    ) -> (found: Found)
        requires
            self.inv(),
            query.wf(),
            key < CHAIN_BUCKET_SIZE,
            self.addr@[key as int] <= query.cur_ix,
            self.bank_offsets@[Self::bank_of(key as int)] == bank_base + 1,
            bank_base + Self::bank_size() <= self.slots@.len(),
            self.slots@.len() <= 0x200_0000,
            3 <= seed_len <= MAX_MATCH,
            seed.sound(query),
        ensures
            found == chain_walked(
                query,
                self.chain_nodes(key as int),
                self.max_hops as int,
                0,
                query.cur_ix - self.addr@[key as int],
                self.head@[key as int] as int,
                seed_len as int,
                seed,
            ),
            found.sound(query),
            found == seed || found.len >= 4 && found.score > seed.score,
    {
        let size: usize = Self::slots_per_bank();
        let cur_ix: usize = query.cur_ix;
        let mask: usize = query.mask;
        let cur_ix_masked: usize = cur_ix & mask;
        let mut best_len: usize = seed_len;
        let mut found: Found = seed;
        let mut backward: usize = 0;
        let mut delta: usize = cur_ix - self.addr[key] as usize;
        let mut slot: usize = self.head[key] as usize;
        let ghost nodes = self.chain_nodes(key as int);
        let ghost whole = chain_walked(
            query,
            nodes,
            self.max_hops as int,
            0,
            delta as int,
            slot as int,
            best_len as int,
            found,
        );
        let mut hops: usize = self.max_hops;
        while hops > 0
            invariant
                self.inv(),
                query.wf(),
                size == Self::bank_size(),
                1 <= size <= 65536,
                cur_ix == query.cur_ix,
                mask == query.mask,
                cur_ix_masked == cur_ix & mask,
                nodes == self.chain_nodes(key as int),
                self.bank_offsets@[Self::bank_of(key as int)] == bank_base + 1,
                bank_base + Self::bank_size() <= self.slots@.len(),
                self.slots@.len() <= 0x200_0000,
                3 <= best_len <= MAX_MATCH,
                backward <= query.max_backward,
                delta <= u32::MAX,
                found.sound(query),
                found == seed || found.len >= 4 && found.score > seed.score,
                chain_walked(
                    query,
                    nodes,
                    hops as int,
                    backward as int,
                    delta as int,
                    slot as int,
                    best_len as int,
                    found,
                ) == whole,
            ensures
                found == whole,
                found.sound(query),
                found == seed || found.len >= 4 && found.score > seed.score,
            decreases hops,
        {
            if delta > query.max_backward - backward {
                break;
            }
            backward = backward + delta;
            let prev_ix: usize = (cur_ix - backward) & mask;
            proof {
                math::lemma_mask_is_mod(slot, size, BANK_BITS as nat);
            }
            let ghost at = slot;
            let node: ChainSlot = self.slots[bank_base + (slot & (size - 1))];
            assert(node == nodes(at as int));
            slot = node.next as usize;
            delta = node.delta as usize;
            hops -= 1;
            if backward == 0 || cur_ix_masked > mask || best_len > mask - cur_ix_masked || prev_ix
                > mask || best_len > mask - prev_ix {
                continue;
            }
            if read_u32(query.data, cur_ix_masked + best_len - 3) != read_u32(
                query.data,
                prev_ix + best_len - 3,
            ) {
                continue;
            }
            let len: usize = measure(backend, query.data, prev_ix, cur_ix_masked, query.max_length);
            if len >= 4 {
                let score: usize = backward_reference_score(len, backward);
                if found.score < score {
                    best_len = len;
                    found = Found { len, distance: backward, score };
                }
            }
        }
        found
    }

    /// Searches the cached distances and the chain.
    fn search(&mut self, backend: Backend, query: &MatchQuery, out: &SearchResult) -> (found: Found)
        requires
            old(self).inv(),
            query.wf(),
            out.len <= MAX_MATCH,
        ensures
            final(self).inv(),
            final(self).same_chains(old(self)),
            found == old(self).result(query, *out),
            found.sound(query),
            found.len == 0 ==> found.score == out.score,
            found.len > 0 ==> found.len >= 2 && found.score > out.score,
    {
        let key: usize = Self::hash(query.data, query.cur_ix & query.mask);
        let (probed_len, probed) = self.probe(backend, query, (key % 256) as u8, out);
        proof {
            math::lemma_exponent(NUM_BANKS as int);
            math::lemma_exponent_fits(NUM_BANKS);
            math::lemma_mask_is_mod(key, NUM_BANKS, math::exponent(NUM_BANKS as int));
        }
        let bank: usize = key & (NUM_BANKS - 1);
        let bank_base: usize = self.activate_bank(bank);
        proof {
            assert forall|slot: int| #[trigger]
                self.chain_nodes(key as int)(slot) == old(self).chain_nodes(key as int)(slot) by {
                power2::lemma_pow2_pos(BANK_BITS as nat);
                div_mod::lemma_mod_bound(slot, Self::bank_size());
                assert(self.node(bank as int, slot % Self::bank_size()) == old(self).node(
                    bank as int,
                    slot % Self::bank_size(),
                ));
            }
            assert(self.chain_nodes(key as int) =~= old(self).chain_nodes(key as int));
        }
        if self.addr[key] as usize > query.cur_ix {
            return probed;
        }
        let seed_len: usize = if probed_len < 3 {
            3
        } else {
            probed_len
        };
        self.walk(backend, query, key, bank_base, seed_len, probed)
    }

    /// Whether one of the first `input_size` offsets hashes to a bucket.
    pub open spec fn swept(data: Seq<u8>, input_size: int, key: int) -> bool {
        exists|offset: int| 0 <= offset < input_size && key == #[trigger] Self::key_of(data, offset)
    }

    /// Empties the buckets the first `input_size` offsets hash to.
    fn sweep_buckets(&mut self, data: &[u8], input_size: usize)
        requires
            old(self).inv(),
        ensures
            final(self).inv(),
            final(self).tiny_hash == old(self).tiny_hash,
            final(self).slots == old(self).slots,
            final(self).bank_offsets == old(self).bank_offsets,
            final(self).free_slot_idx == old(self).free_slot_idx,
            final(self).last_distances == old(self).last_distances,
            final(self).max_hops == old(self).max_hops,
            forall|k: int|
                0 <= k < CHAIN_BUCKET_SIZE ==> #[trigger] final(self).addr@[k] == if Self::swept(
                    data@,
                    input_size as int,
                    k,
                ) {
                    CHAIN_EMPTY_ADDR
                } else {
                    old(self).addr@[k]
                },
            forall|k: int|
                0 <= k < CHAIN_BUCKET_SIZE ==> #[trigger] final(self).head@[k] == if Self::swept(
                    data@,
                    input_size as int,
                    k,
                ) {
                    CHAIN_EMPTY_HEAD
                } else {
                    old(self).head@[k]
                },
    {
        let mut offset: usize = 0;
        while offset < input_size
            invariant
                offset <= input_size,
                self.inv(),
                self.tiny_hash == old(self).tiny_hash,
                self.slots == old(self).slots,
                self.bank_offsets == old(self).bank_offsets,
                self.free_slot_idx == old(self).free_slot_idx,
                self.last_distances == old(self).last_distances,
                self.max_hops == old(self).max_hops,
                forall|k: int|
                    0 <= k < CHAIN_BUCKET_SIZE ==> #[trigger] self.addr@[k] == if Self::swept(
                        data@,
                        offset as int,
                        k,
                    ) {
                        CHAIN_EMPTY_ADDR
                    } else {
                        old(self).addr@[k]
                    },
                forall|k: int|
                    0 <= k < CHAIN_BUCKET_SIZE ==> #[trigger] self.head@[k] == if Self::swept(
                        data@,
                        offset as int,
                        k,
                    ) {
                        CHAIN_EMPTY_HEAD
                    } else {
                        old(self).head@[k]
                    },
            decreases input_size - offset,
        {
            let bucket: usize = Self::hash(data, offset);
            self.addr.set(bucket, CHAIN_EMPTY_ADDR);
            self.head.set(bucket, CHAIN_EMPTY_HEAD);
            proof {
                assert forall|k: int| 0 <= k < CHAIN_BUCKET_SIZE implies #[trigger] Self::swept(
                    data@,
                    offset + 1,
                    k,
                ) == (k == bucket || Self::swept(data@, offset as int, k)) by {
                    if Self::swept(data@, offset as int, k) {
                        let o = choose|o: int|
                            0 <= o < offset && k == #[trigger] Self::key_of(data@, o);
                        assert(0 <= o < offset + 1 && k == Self::key_of(data@, o));
                    }
                    if k == bucket {
                        assert(k == Self::key_of(data@, offset as int));
                    }
                }
            }
            offset += 1;
        }
    }
}

impl<const NUM_BANKS: usize, const BANK_BITS: u32> Matcher for ChainMatcher<
    NUM_BANKS,
    BANK_BITS,
> {
    open spec fn wf(&self) -> bool {
        self.inv()
    }

    open spec fn admits(&self, ix: int) -> bool {
        true
    }

    open spec fn answers(
        &self,
        words: Words,
        backend: BackendKind,
        query: &MatchQuery,
        from: SearchResult,
        to: SearchResult,
    ) -> bool {
        let found = self.result(query, from);
        let kept = search::written_back(from, found);
        if found.len > 0 {
            to == kept
        } else {
            exists|word: Option<SearchResult>| #[trigger] query.consulted(words, kept, false, word, to)
        }
    }

    open spec fn hashed(&self) -> int {
        4
    }

    open spec fn looks_ahead(&self) -> int {
        4
    }

    open spec fn probes(&self) -> int {
        self.last_distances as int
    }

    open spec fn follows(&self, before: &Self, data: Seq<u8>, mask: usize, ix: int) -> bool {
        self.recorded(before, data, mask, ix)
    }

    fn hash_type_length(&self) -> usize {
        4
    }

    fn store_lookahead(&self) -> usize {
        4
    }

    fn last_distances_to_check(&self) -> usize {
        self.last_distances
    }

    fn prepare(&mut self, one_shot: bool, input_size: usize, data: &[u8], clear: bool) -> (sweep: Sweep)
        ensures
            sweep == if one_shot && input_size <= CHAIN_BUCKET_SIZE / 64 {
                Sweep::Partial
            } else {
                Sweep::Full
            },
            final(self).slots == old(self).slots,
            final(self).bank_offsets == old(self).bank_offsets,
            final(self).last_distances == old(self).last_distances,
            final(self).max_hops == old(self).max_hops,
            !clear ==> *final(self) == *old(self),
            // Whatever is cleared, no truncated hash and no slot hand-out survives.
            clear ==> forall|i: int|
                0 <= i < CHAIN_TINY_SIZE ==> #[trigger] final(self).tiny_hash@[i] == 0,
            clear ==> forall|b: int|
                0 <= b < NUM_BANKS ==> #[trigger] final(self).free_slot_idx@[b] == 0,
            clear ==> forall|k: int|
                0 <= k < CHAIN_BUCKET_SIZE ==> #[trigger] final(self).addr@[k] == if sweep
                    == Sweep::Full || Self::swept(data@, input_size as int, k) {
                    CHAIN_EMPTY_ADDR
                } else {
                    old(self).addr@[k]
                },
            clear ==> forall|k: int|
                0 <= k < CHAIN_BUCKET_SIZE ==> #[trigger] final(self).head@[k] == if sweep
                    == Sweep::Full {
                    0
                } else if Self::swept(data@, input_size as int, k) {
                    CHAIN_EMPTY_HEAD
                } else {
                    old(self).head@[k]
                },
    {
        let sweep: Sweep = if one_shot && input_size <= CHAIN_BUCKET_SIZE / 64 {
            Sweep::Partial
        } else {
            Sweep::Full
        };
        if !clear {
            return sweep;
        }
        if matches!(sweep, Sweep::Partial) {
            self.sweep_buckets(data, input_size);
        } else {
            self.addr = vec![CHAIN_EMPTY_ADDR; CHAIN_BUCKET_SIZE];
            self.head = vec![0u16; CHAIN_BUCKET_SIZE];
        }
        self.tiny_hash = vec![0u8; CHAIN_TINY_SIZE];
        self.free_slot_idx = vec![0u16; NUM_BANKS];
        // The nodes are left alone: a chain is only entered through its bucket,
        // and every bucket this cleared now reads as empty.
        sweep
    }

    fn store(&mut self, data: &[u8], mask: usize, ix: usize) {
        self.record(data, mask, ix);
    }

    fn find_longest_match<D: DictionarySource>(
        &mut self,
        backend: Backend,
        dictionary: &mut D,
        query: &MatchQuery,
        out: &mut SearchResult,
    ) {
        let min_score: usize = out.score;
        let found: Found = self.search(backend, query, out);
        write_back(out, found);
        self.record(query.data, query.mask, query.cur_ix);
        if out.score == min_score {
            query.search_dictionary(dictionary, out, false);
        }
    }
}

} // verus!
