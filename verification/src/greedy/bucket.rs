//! Bucketed match finder: the most recent positions of every hash.
use vstd::arithmetic::power2;
use vstd::bits;
use vstd::prelude::*;

use crate::backend::{Backend, BackendKind};
use crate::greedy::block;
use crate::greedy::block::{search_bucket, search_chain};
use crate::greedy::keymap::KeyMap;
use crate::greedy::matcher::{DictionarySource, Matcher, Words};
use crate::greedy::pool;
use crate::greedy::pool::{
    block_at, store_cell, BlockRef, OFFSET_LIMIT, POOL_LIMIT, STARTER_FLAG, STARTER_SLOTS,
};
use crate::greedy::probing;
use crate::greedy::search;
use crate::greedy::search::{
    last_distances_for, read_u32, read_u64, Best, Found, MatchQuery, SearchResult, Sweep, HASH_MUL32, HASH_MUL64,
    MAX_MATCH,
};
use crate::math;
use crate::shared::capacity;
use crate::shared::capacity::{held_by, total};

verus! {

/// Input length up to which a one-shot stream indexes its buckets through a
/// small map instead of the sparse entry table.
pub const COMPACT_INPUT_LIMIT: usize = 1024;

/// Generations a sparse table lives through before it is wiped.
pub const MAX_GENERATION: u64 = 0x7F_FFFF;

/// How a bucket matcher lays out its blocks for the current stream.
#[derive(Copy, Clone, Debug, PartialEq, Eq, Structural)]
pub enum Layout {
    /// One chain of stored positions, indexed through the key map.
    Compact,
    /// Blocks activated on demand, indexed through the sparse entry table.
    Sparse,
    /// Every bucket's block preallocated at its key.
    Dense,
}

/// The block offset a sparse entry names.
pub open spec fn entry_offset(entry: u64) -> u32 {
    ((entry >> 16) & 0x1FF_FFFF) as u32
}

/// The counter of a sparse entry; one of an earlier generation counts as empty.
pub open spec fn entry_count(entry: u64, generation: u64) -> u16 {
    if entry >> 41 == generation {
        entry as u16
    } else {
        0
    }
}

/// The entry names a block.
pub open spec fn entry_active(entry: u64) -> bool {
    entry_offset(entry) != 0
}

/// The entry names a block of full depth.
pub open spec fn entry_full(entry: u64) -> bool {
    0 < entry_offset(entry) < STARTER_FLAG
}

/// Bucketed match finder keeping the most recent positions per hash.
///
/// `HASH64` selects the variant that hashes eight bytes instead of four.
/// `BUCKETS` is the number of buckets and `BLOCK` the number of slots per
/// bucket. The depth also fixes how many cached distances a search probes and
/// whether slots carry tags.
///
/// The layout follows the input. A matcher that expects at least
/// [`BucketMatcher::dense_limit`] bytes gets one block per bucket, with a
/// counter per bucket that is cleared per stream. Other streams activate blocks
/// on demand, each starting small, and index them through packed entries that a
/// new stream empties by bumping the generation. A short one-shot stream links
/// every store into a per-bucket chain indexed through a small map.
///
/// Whatever the layout, a bucket holds the newest positions stored into it,
/// newest first.
pub struct BucketMatcher<const HASH64: bool, const BUCKETS: usize, const BLOCK: usize> {
    /// How the current stream's blocks are laid out.
    pub layout: Layout,
    /// Dense layout: one wrapping store counter per bucket.
    pub num: Vec<u16>,
    /// Dense layout: one block per bucket, allocated once.
    pub dense: Vec<u32>,
    /// Dense layout: one tag per slot; empty for untagged shapes.
    pub dense_tags: Vec<u8>,
    /// Sparse layout: one packed entry per bucket, allocated on first use.
    pub entries: Option<Vec<u64>>,
    /// Generation stamp a live sparse entry carries; never zero.
    pub generation: u64,
    /// Compact layout: counter and chain head per stored bucket.
    pub compact: KeyMap,
    /// Compact layout: every stored position, each linked to the previous store
    /// into its bucket.
    pub chain: Vec<u64>,
    /// Sparse layout: activated full blocks.
    pub blocks: Vec<u32>,
    /// One tag per slot of `blocks`; empty for untagged shapes.
    pub block_tags: Vec<u8>,
    /// Sparse layout: activated starter blocks.
    pub starters: Vec<u32>,
    /// One tag per slot of `starters`; empty for untagged shapes.
    pub starter_tags: Vec<u8>,
    /// Total input the matcher was built for; zero when unknown.
    pub size_hint: usize,
    /// Streams prepared so far, saturating.
    pub streams: u32,
}

impl<const HASH64: bool, const BUCKETS: usize, const BLOCK: usize> BucketMatcher<
    HASH64,
    BUCKETS,
    BLOCK,
> {
    /// The shape is one the encoder uses.
    pub open spec fn shaped() -> bool {
        &&& BUCKETS == 16384 || BUCKETS == 32768
        &&& HASH64 ==> BUCKETS == 32768
        &&& 16 <= BLOCK <= 256
    }

    /// Whether blocks carry tags.
    pub open spec fn tagged() -> bool {
        BLOCK <= 32
    }

    /// The hash of the bytes at an offset: the bucket above eight tag bits.
    pub open spec fn hash_of(data: Seq<u8>, offset: int) -> int {
        if HASH64 {
            (crate::shared::match_len::word_at(data, offset).wrapping_mul(HASH_MUL64 << 24u64)
                >> 41u64) as int
        } else if BUCKETS == 16384 {
            (search::half_at(data, offset).wrapping_mul(HASH_MUL32) >> 10u32) as int
        } else {
            (search::half_at(data, offset).wrapping_mul(HASH_MUL32) >> 9u32) as int
        }
    }

    /// The bucket of the bytes at an offset.
    pub open spec fn key_of(data: Seq<u8>, offset: int) -> int {
        Self::hash_of(data, offset) / 256
    }

    /// The tag of the bytes at an offset.
    pub open spec fn tag_of(data: Seq<u8>, offset: int) -> u8 {
        (Self::hash_of(data, offset) % 256) as u8
    }

    /// How many positions were stored into a bucket, modulo 2^16.
    pub open spec fn count_of(&self, key: int) -> u16 {
        match self.layout {
            Layout::Dense => self.num@[key],
            Layout::Compact => self.compact.value(key).0,
            Layout::Sparse => match self.entries {
                Some(entries) => entry_count(entries@[key], self.generation),
                None => 0,
            },
        }
    }

    /// The positions a bucket holds, newest first.
    pub open spec fn positions(&self, key: int) -> Seq<u32> {
        match self.layout {
            Layout::Dense => block::kept(
                pool::run_of(self.dense@, key, BLOCK as int),
                self.num@[key] as int,
            ),
            Layout::Compact => block::chain_list(
                self.chain@,
                self.compact.value(key).1 as int,
                block::kept_count(BLOCK as int, self.compact.value(key).0 as int),
            ),
            Layout::Sparse => match self.entries {
                Some(entries) => pool::named(
                    self.starters@,
                    self.blocks@,
                    BLOCK as int,
                    entry_offset(entries@[key]),
                    entry_count(entries@[key], self.generation) as int,
                ),
                None => Seq::empty(),
            },
        }
    }

    /// The tags of the positions a bucket holds, where the layout keeps them.
    pub open spec fn tags(&self, key: int) -> Seq<u8> {
        match self.layout {
            Layout::Dense => block::kept(
                pool::run_of(self.dense_tags@, key, BLOCK as int),
                self.num@[key] as int,
            ),
            Layout::Compact => Seq::empty(),
            Layout::Sparse => match self.entries {
                Some(entries) => pool::named(
                    self.starter_tags@,
                    self.block_tags@,
                    BLOCK as int,
                    entry_offset(entries@[key]),
                    entry_count(entries@[key], self.generation) as int,
                ),
                None => Seq::empty(),
            },
        }
    }

    /// Whether a search of a bucket may look at its tags: only blocks of full
    /// depth are filtered.
    pub open spec fn filtered(&self, key: int) -> bool {
        Self::tagged() && match self.layout {
            Layout::Dense => true,
            Layout::Compact => false,
            Layout::Sparse => self.entries is Some && entry_full((self.entries->0)@[key]),
        }
    }

    /// The dense tables are absent or have one block per bucket.
    pub open spec fn dense_inv(&self) -> bool {
        if self.dense@.len() == 0 {
            self.layout != Layout::Dense
        } else {
            &&& self.dense@.len() == BUCKETS * BLOCK
            &&& self.num@.len() == BUCKETS
            &&& self.dense_tags@.len() == if Self::tagged() {
                BUCKETS * BLOCK
            } else {
                0
            }
        }
    }

    /// Every chain head names a node, and nodes link to older ones.
    pub open spec fn compact_inv(&self) -> bool {
        &&& self.entries is None
        &&& block::chain_ok(self.chain@)
        &&& self.chain@.len() <= u32::MAX
        &&& forall|key: int| (#[trigger] self.compact.value(key)).1 <= self.chain@.len()
    }

    /// A sparse entry is of no later generation and names a block deep enough
    /// for its counter.
    pub open spec fn entry_ok(&self, entry: u64) -> bool {
        let offset = entry_offset(entry);
        let count = entry_count(entry, self.generation);
        &&& entry >> 41 <= self.generation
        &&& offset == 0 ==> count == 0
        &&& offset >= STARTER_FLAG ==> count <= STARTER_SLOTS
        &&& pool::in_pools(self.starters@, self.blocks@, BLOCK as int, offset)
    }

    /// Every sparse entry names a block of its own.
    pub open spec fn sparse_inv(&self) -> bool {
        match self.entries {
            None => true,
            Some(entries) => {
                &&& entries@.len() == BUCKETS
                &&& self.starters@.len() == 4 * math::tally(entries@, |e: u64| entry_active(e))
                &&& self.blocks@.len() == BLOCK * math::tally(entries@, |e: u64| entry_full(e))
                &&& self.starter_tags@.len() == if Self::tagged() {
                    self.starters@.len()
                } else {
                    0
                }
                &&& self.block_tags@.len() == if Self::tagged() {
                    self.blocks@.len()
                } else {
                    0
                }
                &&& forall|k: int| 0 <= k < BUCKETS ==> self.entry_ok(#[trigger] entries@[k])
                &&& forall|j: int, k: int|
                    0 <= j < k < BUCKETS && entry_active(#[trigger] entries@[j]) ==> entry_offset(
                        entries@[j],
                    ) != entry_offset(#[trigger] entries@[k])
            },
        }
    }

    /// The tables fit the shape and the current layout.
    pub open spec fn inv(&self) -> bool {
        &&& Self::shaped()
        &&& self.compact.wf()
        &&& 1 <= self.generation <= MAX_GENERATION
        &&& self.dense_inv()
        &&& self.entries is Some ==> (self.entries->0)@.len() == BUCKETS
        &&& self.layout == Layout::Compact ==> self.compact_inv()
        &&& self.layout == Layout::Sparse ==> self.sparse_inv()
    }

    /// Stores are recorded: the layout was prepared and has room.
    pub open spec fn records(&self) -> bool {
        match self.layout {
            Layout::Dense => true,
            Layout::Compact => self.chain@.len() < u32::MAX,
            Layout::Sparse => self.entries is Some,
        }
    }

    /// The matcher is another one with a position stored into a bucket.
    pub open spec fn stored(&self, before: &Self, key: int, ix: u32, tag: u8) -> bool {
        &&& self.layout == before.layout
        &&& self.size_hint == before.size_hint
        &&& self.streams == before.streams
        &&& self.generation == before.generation
        &&& forall|k: int|
            0 <= k < BUCKETS ==> #[trigger] self.count_of(k) == if k == key && before.records() {
                before.count_of(k).wrapping_add(1)
            } else {
                before.count_of(k)
            }
        &&& forall|k: int|
            0 <= k < BUCKETS ==> #[trigger] self.positions(k) == if k == key && before.records() {
                block::pushed(before.positions(k), ix, before.count_of(k), BLOCK as int)
            } else {
                before.positions(k)
            }
        &&& Self::tagged() && self.layout != Layout::Compact ==> forall|k: int|
            0 <= k < BUCKETS ==> #[trigger] self.tags(k) == if k == key && before.records() {
                block::pushed(before.tags(k), tag, before.count_of(k), BLOCK as int)
            } else {
                before.tags(k)
            }
        &&& forall|k: int|
            0 <= k < BUCKETS ==> #[trigger] self.filtered(k) == (before.filtered(k) || k == key
                && Self::tagged() && before.layout == Layout::Sparse && before.count_of(k)
                == STARTER_SLOTS)
    }

    /// What the items in use take.
    pub open spec fn least_bytes(&self) -> int {
        2int * self.num@.len() + 4 * self.dense@.len() + self.dense_tags@.len() + 4
            * self.blocks@.len() + self.block_tags@.len() + 4 * self.starters@.len()
            + self.starter_tags@.len() + 8 * self.compact.entries@.len() + 8
            * self.chain@.len() + match self.entries {
            Some(entries) => 8int * entries@.len(),
            None => 0,
        }
    }

    /// Returns how many bytes the table holds on to.
    pub fn retained_bytes(&self) -> (bytes: usize)
        ensures
            capacity::covers(bytes, self.least_bytes()),
    {
        let dense: usize = total(
            total(held_by(&self.num, 2), held_by(&self.dense, 4)),
            held_by(&self.dense_tags, 1),
        );
        let blocks: usize = total(held_by(&self.blocks, 4), held_by(&self.block_tags, 1));
        let starters: usize = total(held_by(&self.starters, 4), held_by(&self.starter_tags, 1));
        let linked: usize = total(held_by(&self.compact.entries, 8), held_by(&self.chain, 8));
        let entries: usize = match &self.entries {
            Some(entries) => held_by(entries, 8),
            None => 0,
        };
        total(total(dense, total(blocks, starters)), total(linked, entries))
    }

    /// Creates an empty table expecting `size_hint` bytes of input in total
    /// (zero when unknown).
    pub fn new(size_hint: usize) -> (matcher: Self)
        requires
            Self::shaped(),
        ensures
            matcher.inv(),
            !matcher.records(),
            matcher.size_hint == size_hint,
            matcher.streams == 0,
            matcher.entries is None,
            matcher.dense@.len() == 0,
            forall|k: int| #[trigger] matcher.positions(k) == Seq::<u32>::empty(),
    {
        BucketMatcher {
            layout: Layout::Sparse,
            num: Vec::new(),
            dense: Vec::new(),
            dense_tags: Vec::new(),
            entries: None,
            generation: 1,
            compact: KeyMap::default(),
            chain: Vec::new(),
            blocks: Vec::new(),
            block_tags: Vec::new(),
            starters: Vec::new(),
            starter_tags: Vec::new(),
            size_hint,
            streams: 0,
        }
    }

    /// The input the layout choice is made for: a stream of unknown length is
    /// taken to be long when the table is small.
    pub open spec fn expected(&self) -> int {
        if self.size_hint == 0 && Self::tagged() {
            usize::MAX as int
        } else {
            self.size_hint as int
        }
    }

    /// Returns the input the layout choice is made for.
    pub fn expected_input(&self) -> (expected: usize)
        ensures
            expected == self.expected(),
    {
        if self.size_hint == 0 && BLOCK <= 32 {
            usize::MAX
        } else {
            self.size_hint
        }
    }

    /// Shortest known input that gets the dense table: a sixteenth of a tagged
    /// table, an eighth of a deep one for a first stream, a sixty-fourth once
    /// the matcher has been reused.
    pub open spec fn dense_threshold(&self) -> int {
        (BUCKETS * BLOCK * 4) / if Self::tagged() {
            16
        } else if self.streams == 0 {
            8
        } else {
            64
        }
    }

    /// Returns the shortest known input that gets the dense table.
    pub fn dense_limit(&self) -> (limit: usize)
        requires
            Self::shaped(),
        ensures
            limit == self.dense_threshold(),
    {
        proof {
            Self::lemma_table_size();
        }
        let table_bytes: usize = BUCKETS * BLOCK * 4;
        if BLOCK <= 32 {
            table_bytes / 16
        } else if self.streams == 0 {
            table_bytes / 8
        } else {
            table_bytes / 64
        }
    }

    /// The dense table is at most eight million slots.
    proof fn lemma_table_size()
        requires
            Self::shaped(),
        ensures
            0 < BUCKETS * BLOCK <= 0x80_0000,
            BUCKETS * BLOCK * 4 <= 0x200_0000,
            BLOCK * POOL_LIMIT <= 0x80_0000,
    {
        assert(0 < BUCKETS * BLOCK <= 32768 * 256) by (nonlinear_arith)
            requires
                0 < BUCKETS <= 32768,
                0 < BLOCK <= 256,
        ;
        assert(BLOCK * POOL_LIMIT <= 256 * 0x8000) by (nonlinear_arith)
            requires
                BLOCK <= 256,
                POOL_LIMIT == 0x8000,
        ;
    }

    /// Re-aims the matcher at a stream of `size_hint` bytes.
    ///
    /// Only the layout choice the next preparation makes depends on the hint.
    pub fn retarget(&mut self, size_hint: usize)
        ensures
            *final(self) == (BucketMatcher { size_hint, ..*old(self) }),
    {
        self.size_hint = size_hint;
    }

    /// Returns the bucket hash plus eight rejection bits below its key.
    pub fn hash_with_tag(data: &[u8], offset: usize) -> (hash: usize)
        requires
            Self::shaped(),
        ensures
            hash == Self::hash_of(data@, offset as int),
            hash < BUCKETS * 256,
    {
        proof {
            power2::lemma2_to64();
        }
        if HASH64 {
            let product: u64 = read_u64(data, offset).wrapping_mul(HASH_MUL64 << 24u64);
            proof {
                bits::lemma_u64_shr_is_div(product, 41u64);
                power2::lemma2_to64_rest();
            }
            (product >> 41u64) as usize
        } else {
            let product: u32 = read_u32(data, offset).wrapping_mul(HASH_MUL32);
            proof {
                bits::lemma_u32_shr_is_div(product, 10u32);
                bits::lemma_u32_shr_is_div(product, 9u32);
            }
            if BUCKETS == 16384 {
                (product >> 10u32) as usize
            } else {
                (product >> 9u32) as usize
            }
        }
    }

    /// Decodes a sparse entry into its counter and encoded block offset. An
    /// entry from an earlier generation still names its block but counts as
    /// empty.
    pub fn decode_entry(&self, entry: u64) -> (held: (u16, u32))
        ensures
            held == (entry_count(entry, self.generation), entry_offset(entry)),
    {
        let offset: u32 = ((entry >> 16) & 0x1FF_FFFF) as u32;
        let count: u16 = if entry >> 41 == self.generation {
            entry as u16
        } else {
            0
        };
        (count, offset)
    }

    /// Encodes a counter and block offset as a sparse entry of the current
    /// generation.
    pub fn encode_entry(&self, count: u16, offset: u32) -> (entry: u64)
        requires
            self.generation <= MAX_GENERATION,
            offset < OFFSET_LIMIT,
        ensures
            entry_count(entry, self.generation) == count,
            entry_offset(entry) == offset,
            entry >> 41 == self.generation,
    {
        proof {
            math::lemma_packed_entry(self.generation, offset, count);
        }
        (self.generation << 41) | ((offset as u64) << 16) | (count as u64)
    }

    /// Returns the counter and encoded offset of a bucket in an on-demand layout.
    pub fn entry(&self, key: usize) -> (held: (u16, u32))
        requires
            self.inv(),
            key < BUCKETS,
            self.layout != Layout::Dense,
        ensures
            self.layout == Layout::Compact ==> held == self.compact.value(key as int),
            self.layout == Layout::Sparse ==> held == match self.entries {
                Some(entries) => (
                    entry_count(entries@[key as int], self.generation),
                    entry_offset(entries@[key as int]),
                ),
                None => (0, 0),
            },
    {
        if matches!(self.layout, Layout::Compact) {
            return self.compact.get(key);
        }
        match &self.entries {
            Some(entries) => self.decode_entry(entries[key]),
            None => (0, 0),
        }
    }

    /// Decodes an on-demand offset into the block it names.
    pub fn block(offset: u32) -> (block: Option<BlockRef>)
        requires
            offset < OFFSET_LIMIT,
            offset != STARTER_FLAG,
        ensures
            block == pool::block_named(offset),
    {
        block_at(offset)
    }
}

impl<const HASH64: bool, const BUCKETS: usize, const BLOCK: usize> BucketMatcher<
    HASH64,
    BUCKETS,
    BLOCK,
> {
    /// Stores a position into a bucket of the dense table.
    fn dense_store(&mut self, key: usize, ix: u32, tag: u8)
        requires
            old(self).inv(),
            old(self).layout == Layout::Dense,
            key < BUCKETS,
        ensures
            final(self).inv(),
            final(self).stored(old(self), key as int, ix, tag),
    {
        let current: u16 = self.num[key];
        self.num.set(key, current.wrapping_add(1));
        let ghost cells = self.dense@;
        let ghost marks = self.dense_tags@;
        let ghost slot = block::store_slot(BLOCK as int, current as int);
        proof {
            Self::lemma_table_size();
            Self::lemma_in_dense(key as int);
            vstd::arithmetic::div_mod::lemma_mod_bound(current as int, BLOCK as int);
            pool::lemma_run_update(cells, key as int, BLOCK as int, slot, ix);
            let run = pool::run_of(cells, key as int, BLOCK as int);
            block::lemma_kept_push(run, current as int, ix);
        }
        let at: usize = key * BLOCK + (BLOCK - 1 - (current as usize) % BLOCK);
        self.dense.set(at, ix);
        if BLOCK <= 32 {
            proof {
                pool::lemma_run_update(marks, key as int, BLOCK as int, slot, tag);
                let run = pool::run_of(marks, key as int, BLOCK as int);
                block::lemma_kept_push(run, current as int, tag);
            }
            self.dense_tags.set(at, tag);
        }
        proof {
            assert forall|k: int| 0 <= k < BUCKETS implies #[trigger] self.positions(k) == if k
                == key {
                block::pushed(old(self).positions(k), ix, old(self).count_of(k), BLOCK as int)
            } else {
                old(self).positions(k)
            } by {
                Self::lemma_in_dense(k);
                if k == key && current == 0xFFFF {
                    assert(self.positions(k) =~= Seq::<u32>::empty());
                }
            }
            if Self::tagged() {
                assert forall|k: int| 0 <= k < BUCKETS implies #[trigger] self.tags(k) == if k
                    == key {
                    block::pushed(old(self).tags(k), tag, old(self).count_of(k), BLOCK as int)
                } else {
                    old(self).tags(k)
                } by {
                    Self::lemma_in_dense(k);
                    if k == key && current == 0xFFFF {
                        assert(self.tags(k) =~= Seq::<u8>::empty());
                    }
                }
            }
        }
    }

    /// A bucket's block lies inside the dense table.
    proof fn lemma_in_dense(key: int)
        requires
            Self::shaped(),
            0 <= key < BUCKETS,
        ensures
            (key + 1) * BLOCK <= BUCKETS * BLOCK,
            0 <= key * BLOCK,
            key * BLOCK + BLOCK <= BUCKETS * BLOCK,
    {
        assert((key + 1) * BLOCK <= BUCKETS * BLOCK) by (nonlinear_arith)
            requires
                key + 1 <= BUCKETS,
                0 < BLOCK,
        ;
        pool::lemma_run_fits(key, BLOCK as int, BUCKETS * BLOCK);
    }

    /// Stores a position into a bucket of the sparse table, whose entry was
    /// already read as `count` and `offset`.
    ///
    /// A search reads the entry before it scans the bucket and stores the
    /// searched position afterwards; this lets it do both with one lookup.
    #[verifier::rlimit(40)]
    fn push_found(&mut self, key: usize, count: u16, offset: u32, ix: u32, tag: u8)
        requires
            old(self).inv(),
            old(self).layout == Layout::Sparse,
            old(self).entries is Some,
            key < BUCKETS,
            count == entry_count((old(self).entries->0)@[key as int], old(self).generation),
            offset == entry_offset((old(self).entries->0)@[key as int]),
        ensures
            final(self).inv(),
            final(self).stored(old(self), key as int, ix, tag),
            final(self).entries is Some,
    {
        let ghost before = *self;
        let ghost entries0 = (self.entries->0)@;
        proof {
            Self::lemma_table_size();
            assert(self.entry_ok(entries0[key as int]));
            math::lemma_entry_fields(entries0[key as int]);
            math::lemma_tally_bound(entries0, |e: u64| entry_active(e));
            math::lemma_tally_bound(entries0, |e: u64| entry_full(e));
            math::lemma_tally_update(entries0, |e: u64| entry_active(e), key as int, 0u64);
            math::lemma_tally_update(entries0, |e: u64| entry_full(e), key as int, 0u64);
            let full = math::tally(entries0, |e: u64| entry_full(e)) as int;
            vstd::arithmetic::div_mod::lemma_mod_multiples_basic(full, BLOCK as int);
            assert(full * BLOCK == BLOCK * full) by (nonlinear_arith);
            assert(BLOCK * full <= BLOCK * POOL_LIMIT) by (nonlinear_arith)
                requires
                    0 <= full <= POOL_LIMIT,
                    0 < BLOCK,
            ;
            if full < BUCKETS {
                assert(BLOCK * full < BLOCK * POOL_LIMIT) by (nonlinear_arith)
                    requires
                        0 <= full < POOL_LIMIT,
                        0 < BLOCK,
                ;
            }
        }
        let next: u32 = store_cell(
            &mut self.starters,
            &mut self.blocks,
            BLOCK,
            count,
            offset,
            0u32,
            ix,
        );
        if BLOCK <= 32 {
            let marked: u32 = store_cell(
                &mut self.starter_tags,
                &mut self.block_tags,
                BLOCK,
                count,
                offset,
                0u8,
                tag,
            );
            assert(marked == next);
        }
        let entry: u64 = self.encode_entry(count.wrapping_add(1), next);
        match self.entries.take() {
            None => {},
            Some(mut entries) => {
                entries.set(key, entry);
                self.entries = Some(entries);
            },
        }
        proof {
            self.lemma_pushed(&before, key as int, count, offset, next, entry, ix, tag);
        }
    }

    /// Writing the entry of a bucket whose block was stored into keeps the
    /// tables consistent and pushes what the bucket holds.
    #[verifier::rlimit(60)]
    proof fn lemma_pushed(
        &self,
        before: &Self,
        key: int,
        count: u16,
        offset: u32,
        next: u32,
        entry: u64,
        ix: u32,
        tag: u8,
    )
        requires
            before.inv(),
            before.layout == Layout::Sparse,
            before.entries is Some,
            0 <= key < BUCKETS,
            count == entry_count((before.entries->0)@[key], before.generation),
            offset == entry_offset((before.entries->0)@[key]),
            self.entries is Some,
            (self.entries->0)@ == (before.entries->0)@.update(key, entry),
            entry_count(entry, self.generation) == count.wrapping_add(1),
            entry_offset(entry) == next,
            entry >> 41 == self.generation,
            self.layout == before.layout,
            self.generation == before.generation,
            self.size_hint == before.size_hint,
            self.streams == before.streams,
            self.compact == before.compact,
            self.chain == before.chain,
            self.num == before.num,
            self.dense == before.dense,
            self.dense_tags == before.dense_tags,
            next != 0,
            next < OFFSET_LIMIT,
            next == pool::next_offset(
                before.starters@.len() as int,
                before.blocks@.len() as int,
                BLOCK as int,
                count,
                offset,
            ),
            pool::in_pools(self.starters@, self.blocks@, BLOCK as int, next),
            self.starters@.len() == before.starters@.len() + if offset == 0 {
                4int
            } else {
                0int
            },
            self.blocks@.len() == before.blocks@.len() + if offset >= STARTER_FLAG && next
                < STARTER_FLAG {
                BLOCK as int
            } else {
                0int
            },
            pool::named(self.starters@, self.blocks@, BLOCK as int, next, count + 1)
                == block::truncated(seq![ix] + before.positions(key), BLOCK as int),
            forall|o: u32, c: int|
                o != next && pool::in_pools(before.starters@, before.blocks@, BLOCK as int, o)
                    ==> #[trigger] pool::named(self.starters@, self.blocks@, BLOCK as int, o, c)
                    == pool::named(before.starters@, before.blocks@, BLOCK as int, o, c),
            forall|o: u32|
                pool::in_pools(before.starters@, before.blocks@, BLOCK as int, o)
                    ==> #[trigger] pool::in_pools(self.starters@, self.blocks@, BLOCK as int, o),
            self.starter_tags@.len() == if Self::tagged() {
                self.starters@.len()
            } else {
                0
            },
            self.block_tags@.len() == if Self::tagged() {
                self.blocks@.len()
            } else {
                0
            },
            Self::tagged() ==> pool::named(
                self.starter_tags@,
                self.block_tags@,
                BLOCK as int,
                next,
                count + 1,
            ) == block::truncated(seq![tag] + before.tags(key), BLOCK as int),
            Self::tagged() ==> forall|o: u32, c: int|
                o != next && pool::in_pools(
                    before.starter_tags@,
                    before.block_tags@,
                    BLOCK as int,
                    o,
                ) ==> #[trigger] pool::named(
                    self.starter_tags@,
                    self.block_tags@,
                    BLOCK as int,
                    o,
                    c,
                ) == pool::named(before.starter_tags@, before.block_tags@, BLOCK as int, o, c),
        ensures
            self.inv(),
            self.stored(before, key, ix, tag),
    {
        let entries0 = (before.entries->0)@;
        let entries = (self.entries->0)@;
        let active = |e: u64| entry_active(e);
        let full = |e: u64| entry_full(e);
        math::lemma_tally_update(entries0, active, key, entry);
        math::lemma_tally_update(entries0, full, key, entry);
        math::lemma_tally_bound(entries0, active);
        math::lemma_tally_bound(entries0, full);
        let fulls = math::tally(entries0, full) as int;
        let actives = math::tally(entries0, active) as int;
        assert(before.entry_ok(entries0[key]));
        vstd::arithmetic::div_mod::lemma_div_multiples_vanish(fulls, BLOCK as int);
        assert(BLOCK * (fulls + 1) == BLOCK * fulls + BLOCK) by (nonlinear_arith);
        // The block stored into is the bucket's own or a new one.
        assert forall|k: int| 0 <= k < BUCKETS && k != key && entry_active(entries0[k]) implies entry_offset(
            #[trigger] entries0[k],
        ) != next by {
            assert(before.entry_ok(entries0[k]));
            if k < key {
                assert(entry_offset(entries0[k]) != entry_offset(entries0[key]));
            } else if offset != 0 {
                assert(entry_active(entries0[key]));
                assert(entry_offset(entries0[key]) != entry_offset(entries0[k]));
            }
            if let Some(BlockRef::Full(index)) = pool::block_named(entry_offset(entries0[k])) {
                if offset >= STARTER_FLAG && next < STARTER_FLAG && index == fulls {
                    assert((index + 1) * BLOCK == BLOCK * (fulls + 1)) by (nonlinear_arith)
                        requires
                            index == fulls,
                    ;
                }
            }
        }
        assert forall|k: int| 0 <= k < BUCKETS implies self.entry_ok(#[trigger] entries[k]) by {
            if k != key {
                assert(entries[k] == entries0[k]);
                assert(before.entry_ok(entries0[k]));
            }
        }
        assert forall|j: int, k: int|
            0 <= j < k < BUCKETS && entry_active(#[trigger] entries[j]) implies entry_offset(
            entries[j],
        ) != entry_offset(#[trigger] entries[k]) by {
            if j == key {
                assert(entries[k] == entries0[k]);
            } else {
                assert(entries[j] == entries0[j]);
                if k != key {
                    assert(entries[k] == entries0[k]);
                }
            }
        }
        assert(self.sparse_inv());
        assert forall|k: int| 0 <= k < BUCKETS implies #[trigger] self.positions(k) == if k == key {
            block::pushed(before.positions(k), ix, before.count_of(k), BLOCK as int)
        } else {
            before.positions(k)
        } by {
            if k == key {
                if count == 0xFFFF {
                    assert(self.positions(k) =~= Seq::<u32>::empty());
                }
            } else {
                assert(entries[k] == entries0[k]);
                assert(before.entry_ok(entries0[k]));
            }
        }
        if Self::tagged() {
            assert forall|k: int| 0 <= k < BUCKETS implies #[trigger] self.tags(k) == if k == key {
                block::pushed(before.tags(k), tag, before.count_of(k), BLOCK as int)
            } else {
                before.tags(k)
            } by {
                if k == key {
                    if count == 0xFFFF {
                        assert(self.tags(k) =~= Seq::<u8>::empty());
                    }
                } else {
                    assert(entries[k] == entries0[k]);
                    assert(before.entry_ok(entries0[k]));
                }
            }
        }
        assert forall|k: int| 0 <= k < BUCKETS implies #[trigger] self.count_of(k) == if k == key {
            before.count_of(k).wrapping_add(1)
        } else {
            before.count_of(k)
        } by {
            if k != key {
                assert(entries[k] == entries0[k]);
            }
        }
        assert forall|k: int| 0 <= k < BUCKETS implies #[trigger] self.filtered(k) == (
        before.filtered(k) || k == key && Self::tagged() && before.count_of(k) == STARTER_SLOTS) by {
            if k != key {
                assert(entries[k] == entries0[k]);
            }
        }
    }

    /// Links a position in front of the chain of a bucket, whose map entry, at
    /// `slot`, was already read as `count` stores and chain head `head`.
    fn push_chain(&mut self, key: usize, slot: usize, count: u16, head: u32, ix: u32)
        requires
            old(self).inv(),
            old(self).layout == Layout::Compact,
            key < BUCKETS,
            2 * (old(self).compact.count + 1) <= old(self).compact.entries@.len(),
            probing::stops_at(old(self).compact.keys(), key as int, slot as int),
            (count, head) == old(self).compact.value(key as int),
        ensures
            final(self).inv(),
            final(self).stored(old(self), key as int, ix, 0),
    {
        if self.chain.len() >= u32::MAX as usize {
            return;
        }
        let ghost before = *self;
        let node: u64 = (ix as u64) | ((head as u64) << 32);
        self.chain.push(node);
        let link: u32 = self.chain.len() as u32;
        self.compact.write_slot(slot, key, count.wrapping_add(1), link);
        proof {
            math::lemma_linked_node(ix, head);
            let chain = before.chain@;
            let n = BLOCK as int;
            assert(block::chain_ok(self.chain@)) by {
                assert forall|i: int| 0 <= i < self.chain@.len() implies #[trigger] block::node_link(
                    self.chain@[i],
                ) <= i by {
                    if i < chain.len() {
                        assert(self.chain@[i] == chain[i]);
                    }
                }
            }
            assert forall|k: int| 0 <= k < BUCKETS implies #[trigger] self.positions(k) == if k
                == key {
                block::pushed(before.positions(k), ix, before.count_of(k), n)
            } else {
                before.positions(k)
            } by {
                let (c, h) = before.compact.value(k);
                assert(h <= chain.len());
                if k != key {
                    block::lemma_chain_frame(chain, node, h as int, block::kept_count(n, c as int));
                } else if count < 0xFFFF {
                    let held = block::kept_count(n, count as int);
                    let shorter = block::kept_count(n, count + 1) - 1;
                    block::lemma_chain_frame(chain, node, head as int, shorter);
                    block::lemma_chain_cut(chain, head as int, held, shorter);
                    let list = block::chain_list(chain, head as int, held);
                    assert(self.positions(k) =~= seq![ix] + block::truncated(list, shorter));
                    assert(block::truncated(seq![ix] + list, n) =~= seq![ix] + block::truncated(
                        list,
                        shorter,
                    ));
                } else {
                    assert(self.positions(k) =~= Seq::<u32>::empty());
                }
            }
        }
    }

    /// Stores a position into a bucket of the current layout.
    fn push(&mut self, key: usize, ix: u32, tag: u8)
        requires
            old(self).inv(),
            key < BUCKETS,
        ensures
            final(self).inv(),
            final(self).stored(old(self), key as int, ix, tag),
    {
        match self.layout {
            Layout::Dense => self.dense_store(key, ix, tag),
            Layout::Compact => {
                // One probe serves the read and the write: the slot is found
                // after any growth, so it stays valid across the chain update.
                let (slot, count, head) = self.compact.slot_for_write(key);
                self.push_chain(key, slot, count, head, ix);
            },
            Layout::Sparse => {
                if self.entries.is_some() {
                    let (count, offset) = self.entry(key);
                    self.push_found(key, count, offset, ix, tag);
                }
            },
        }
    }
}

impl<const HASH64: bool, const BUCKETS: usize, const BLOCK: usize> BucketMatcher<
    HASH64,
    BUCKETS,
    BLOCK,
> {
    /// The layout the next stream gets.
    pub open spec fn layout_for(&self, one_shot: bool, input_size: usize) -> Layout {
        if one_shot && input_size <= COMPACT_INPUT_LIMIT && self.entries is None {
            Layout::Compact
        } else if self.expected() < self.dense_threshold() && self.dense@.len() == 0 {
            Layout::Sparse
        } else {
            Layout::Dense
        }
    }

    /// No bucket holds anything.
    pub open spec fn is_empty(&self) -> bool {
        &&& forall|k: int| 0 <= k < BUCKETS ==> #[trigger] self.count_of(k) == 0
        &&& forall|k: int| 0 <= k < BUCKETS ==> #[trigger] self.positions(k) == Seq::<u32>::empty()
    }

    /// Drops every activated on-demand block, keeping the allocations.
    fn clear_blocks(&mut self)
        ensures
            *final(self) == (BucketMatcher {
                blocks: final(self).blocks,
                block_tags: final(self).block_tags,
                starters: final(self).starters,
                starter_tags: final(self).starter_tags,
                ..*old(self)
            }),
            final(self).blocks@.len() == 0,
            final(self).block_tags@.len() == 0,
            final(self).starters@.len() == 0,
            final(self).starter_tags@.len() == 0,
    {
        self.blocks.clear();
        self.block_tags.clear();
        self.starters.clear();
        self.starter_tags.clear();
    }

    /// Empties the sparse table: by wiping it, or by bumping the generation if
    /// the entries are the sparse layout's own.
    fn renew_sparse(&mut self)
        requires
            old(self).inv(),
        ensures
            final(self).inv(),
            final(self).layout == Layout::Sparse,
            final(self).entries is Some,
            final(self).is_empty(),
            final(self).generation == if old(self).entries is None || old(self).layout
                != Layout::Sparse || old(self).generation == MAX_GENERATION {
                1
            } else {
                (old(self).generation + 1) as u64
            },
            final(self).size_hint == old(self).size_hint,
            final(self).streams == old(self).streams,
            final(self).dense == old(self).dense,
    {
        if self.entries.is_some() && matches!(self.layout, Layout::Sparse) && self.generation
            < MAX_GENERATION {
            self.generation = self.generation + 1;
            proof {
                let entries = (self.entries->0)@;
                assert forall|k: int| 0 <= k < BUCKETS implies self.entry_ok(#[trigger] entries[k])
                    && entry_count(entries[k], self.generation) == 0 by {
                    assert(old(self).entry_ok(entries[k]));
                }
                assert forall|k: int| 0 <= k < BUCKETS implies #[trigger] self.positions(k)
                    == Seq::<u32>::empty() by {
                    assert(entry_count(entries[k], self.generation) == 0);
                    assert(self.positions(k) =~= Seq::<u32>::empty());
                }
            }
        } else {
            // The blocks the entries name belonged to another layout's stream,
            // or the stamps have run out; start over.
            self.entries = Some(vec![0u64; BUCKETS]);
            self.generation = 1;
            self.clear_blocks();
            self.layout = Layout::Sparse;
            proof {
                math::lemma_entry_fields(0);
                let entries = (self.entries->0)@;
                math::lemma_tally_none(entries, |e: u64| entry_active(e));
                math::lemma_tally_none(entries, |e: u64| entry_full(e));
                assert forall|k: int| 0 <= k < BUCKETS implies #[trigger] self.positions(k)
                    == Seq::<u32>::empty() by {
                    assert(entries[k] == 0);
                    assert(self.positions(k) =~= Seq::<u32>::empty());
                }
            }
        }
    }

    /// Selects the layout for a stream and readies its index.
    fn select_layout(&mut self, one_shot: bool, input_size: usize)
        requires
            old(self).inv(),
        ensures
            final(self).inv(),
            final(self).layout == old(self).layout_for(one_shot, input_size),
            final(self).records(),
            final(self).is_empty(),
            final(self).size_hint == old(self).size_hint,
            final(self).streams == if old(self).streams == u32::MAX {
                u32::MAX
            } else {
                (old(self).streams + 1) as u32
            },
            final(self).layout == Layout::Sparse ==> final(self).generation == if old(self).entries is None || old(self).layout != Layout::Sparse || old(self).generation
                == MAX_GENERATION {
                1
            } else {
                (old(self).generation + 1) as u64
            },
            // The dense blocks survive: only their counters are cleared.
            old(self).dense@.len() > 0 ==> final(self).dense == old(self).dense,
    {
        if one_shot && input_size <= COMPACT_INPUT_LIMIT && self.entries.is_none() {
            // The map spares a cold matcher the sparse table's allocation; a
            // matcher that already has the table empties it for free.
            self.layout = Layout::Compact;
            self.compact.reset(input_size);
            self.clear_blocks();
            self.chain.clear();
            proof {
                assert forall|k: int| 0 <= k < BUCKETS implies #[trigger] self.positions(k)
                    == Seq::<u32>::empty() by {
                    assert(self.compact.value(k) == (0u16, 0u32));
                }
            }
        } else if self.expected_input() < self.dense_limit() && self.dense.len() == 0 {
            // A multi-block one-shot stream is not one-shot at its first block,
            // so this rests on the size hint: known short inputs stay on demand,
            // unless the table already exists and costs only its counters to
            // reuse.
            self.renew_sparse();
        } else {
            proof {
                Self::lemma_table_size();
            }
            if self.dense.len() == 0 {
                self.dense = vec![0u32; BUCKETS * BLOCK];
                self.dense_tags = if BLOCK <= 32 {
                    vec![0u8; BUCKETS * BLOCK]
                } else {
                    Vec::new()
                };
            }
            // Slots are only ever read below the counter that guards them, so
            // the blocks themselves stay as they are.
            self.num = vec![0u16; BUCKETS];
            self.layout = Layout::Dense;
            proof {
                assert forall|k: int| 0 <= k < BUCKETS implies #[trigger] self.positions(k)
                    == Seq::<u32>::empty() by {
                    assert(self.num@[k] == 0);
                    assert(self.positions(k) =~= Seq::<u32>::empty());
                }
            }
        }
        let ghost emptied = *self;
        if self.streams < u32::MAX {
            self.streams = self.streams + 1;
        }
        proof {
            assert forall|k: int| 0 <= k < BUCKETS implies #[trigger] self.count_of(k) == 0 by {
                assert(emptied.count_of(k) == 0);
            }
            assert forall|k: int| 0 <= k < BUCKETS implies #[trigger] self.positions(k) == Seq::<
                u32,
            >::empty() by {
                assert(emptied.positions(k) == Seq::<u32>::empty());
            }
        }
    }

    /// The positions a search of a bucket visits.
    pub open spec fn candidates(&self, backend: BackendKind, key: int, tag: u8) -> Seq<u32> {
        block::picked(
            self.positions(key),
            if self.filtered(key) && block::filters(backend, BLOCK as int) {
                Some(self.tags(key))
            } else {
                None
            },
            tag,
            0,
        )
    }

    /// What a search leaves before any dictionary is consulted.
    pub open spec fn result(
        &self,
        backend: BackendKind,
        query: &MatchQuery,
        out: SearchResult,
    ) -> SearchResult {
        block::bucket_result(
            query,
            out,
            BLOCK as int,
            self.candidates(
                backend,
                Self::key_of(query.data@, query.here()),
                Self::tag_of(query.data@, query.here()),
            ),
        )
    }

    /// Searches a dense table, then stores the position.
    fn search_dense(
        &mut self,
        backend: Backend,
        query: &MatchQuery,
        key: usize,
        tag: u8,
        out: &mut SearchResult,
    )
        requires
            old(self).inv(),
            old(self).layout == Layout::Dense,
            query.wf(),
            key < BUCKETS,
            old(out).len <= MAX_MATCH,
        ensures
            final(self).inv(),
            final(self).stored(old(self), key as int, query.cur_ix as u32, tag),
            *final(out) == block::bucket_result(
                query,
                *old(out),
                BLOCK as int,
                old(self).candidates(backend.of(), key as int, tag),
            ),
            final(out).score >= old(out).score,
            final(out).score == old(out).score ==> *final(out) == *old(out),
            final(out).score > old(out).score ==> final(out).len_code_delta == 0 && final(out).len
                >= 2 && query.genuine(final(out).len as int, final(out).distance as int)
                && final(out).distance <= query.max_backward,
            final(out).len <= MAX_MATCH,
    {
        proof {
            Self::lemma_table_size();
            Self::lemma_in_dense(key as int);
        }
        let count: u16 = self.num[key];
        let from: usize = key * BLOCK;
        let bucket: &[u32] = &self.dense.as_slice()[from..from + BLOCK];
        let tags: Option<&[u8]> = if BLOCK <= 32 {
            Some(&self.dense_tags.as_slice()[from..from + BLOCK])
        } else {
            None
        };
        search_bucket(backend, query, out, tag, count, bucket, tags, BLOCK);
        self.dense_store(key, query.cur_ix as u32, tag);
    }

    /// Searches through an on-demand layout, then stores the position.
    fn search_on_demand(
        &mut self,
        backend: Backend,
        query: &MatchQuery,
        key: usize,
        tag: u8,
        out: &mut SearchResult,
    )
        requires
            old(self).inv(),
            old(self).layout != Layout::Dense,
            query.wf(),
            key < BUCKETS,
            old(out).len <= MAX_MATCH,
        ensures
            final(self).inv(),
            final(self).stored(old(self), key as int, query.cur_ix as u32, tag),
            *final(out) == block::bucket_result(
                query,
                *old(out),
                BLOCK as int,
                old(self).candidates(backend.of(), key as int, tag),
            ),
            final(out).score >= old(out).score,
            final(out).score == old(out).score ==> *final(out) == *old(out),
            final(out).score > old(out).score ==> final(out).len_code_delta == 0 && final(out).len
                >= 2 && query.genuine(final(out).len as int, final(out).distance as int)
                && final(out).distance <= query.max_backward,
            final(out).len <= MAX_MATCH,
    {
        if matches!(self.layout, Layout::Compact) {
            // The map entry is read once; the store after the scan reuses it.
            proof {
                block::lemma_picked_all(self.positions(key as int), tag, 0);
                assert(self.positions(key as int).skip(0) =~= self.positions(key as int));
            }
            let (slot, count, head) = self.compact.slot_for_write(key);
            search_chain(backend, query, out, count, head, self.chain.as_slice(), BLOCK);
            self.push_chain(key, slot, count, head, query.cur_ix as u32);
            return;
        }
        let (count, offset) = self.entry(key);
        proof {
            if self.entries is Some {
                assert(self.entry_ok((self.entries->0)@[key as int]));
                math::lemma_entry_fields((self.entries->0)@[key as int]);
            }
        }
        match Self::block(offset) {
            Some(BlockRef::Full(index)) => {
                proof {
                    pool::lemma_run_fits(index as int, BLOCK as int, self.blocks.len() as int);
                }
                let from: usize = index * BLOCK;
                let bucket: &[u32] = &self.blocks.as_slice()[from..from + BLOCK];
                let tags: Option<&[u8]> = if BLOCK <= 32 {
                    Some(&self.block_tags.as_slice()[from..from + BLOCK])
                } else {
                    None
                };
                search_bucket(backend, query, out, tag, count, bucket, tags, BLOCK);
            },
            Some(BlockRef::Starter(index)) => {
                let from: usize = index * STARTER_SLOTS;
                let bucket: &[u32] = &self.starters.as_slice()[from..from + STARTER_SLOTS];
                search_bucket(backend, query, out, tag, count, bucket, None, BLOCK);
            },
            None => {
                let nothing: [u32; 4] = [0u32; 4];
                proof {
                    assert(block::kept(nothing@, 0) =~= Seq::<u32>::empty());
                }
                search_bucket(backend, query, out, tag, 0, &nothing, None, BLOCK);
            },
        }
        if self.entries.is_some() {
            self.push_found(key, count, offset, query.cur_ix as u32, tag);
        }
    }
}

impl<const HASH64: bool, const BUCKETS: usize, const BLOCK: usize> Matcher for BucketMatcher<
    HASH64,
    BUCKETS,
    BLOCK,
> {
    open spec fn wf(&self) -> bool {
        self.inv()
    }

    open spec fn admits(&self, ix: int) -> bool {
        true
    }

    open spec fn answers(
        &self,
        words: Words,
        backend: BackendKind,
        query: &MatchQuery,
        from: SearchResult,
        to: SearchResult,
    ) -> bool {
        let searched = self.result(backend, query, from);
        if searched.score > from.score {
            to == searched
        } else {
            exists|word: Option<SearchResult>|
                #[trigger] query.consulted(words, searched, false, word, to)
        }
    }

    open spec fn hashed(&self) -> int {
        if HASH64 {
            8
        } else {
            4
        }
    }

    open spec fn looks_ahead(&self) -> int {
        if HASH64 {
            8
        } else {
            4
        }
    }

    open spec fn probes(&self) -> int {
        search::distances_for(BLOCK as int)
    }

    open spec fn follows(&self, before: &Self, data: Seq<u8>, mask: usize, ix: int) -> bool {
        self.stored(
            before,
            Self::key_of(data, ((ix as usize) & mask) as int),
            ix as u32,
            Self::tag_of(data, ((ix as usize) & mask) as int),
        )
    }

    fn hash_type_length(&self) -> usize {
        if HASH64 {
            8
        } else {
            4
        }
    }

    fn store_lookahead(&self) -> usize {
        if HASH64 {
            8
        } else {
            4
        }
    }

    fn last_distances_to_check(&self) -> usize {
        last_distances_for(BLOCK)
    }

    fn prepare(&mut self, one_shot: bool, input_size: usize, _data: &[u8], _clear: bool) -> (sweep:
        Sweep)
        ensures
            sweep == Sweep::SelfCleaning,
            final(self).layout == old(self).layout_for(one_shot, input_size),
            final(self).records(),
            final(self).is_empty(),
            final(self).size_hint == old(self).size_hint,
            final(self).streams == if old(self).streams == u32::MAX {
                u32::MAX
            } else {
                (old(self).streams + 1) as u32
            },
            final(self).layout == Layout::Sparse ==> final(self).generation == if old(self).entries is None || old(self).layout != Layout::Sparse || old(self).generation
                == MAX_GENERATION {
                1
            } else {
                (old(self).generation + 1) as u64
            },
            old(self).dense@.len() > 0 ==> final(self).dense == old(self).dense,
    {
        self.select_layout(one_shot, input_size);
        Sweep::SelfCleaning
    }

    fn store(&mut self, data: &[u8], mask: usize, ix: usize) {
        let hash: usize = Self::hash_with_tag(data, ix & mask);
        self.push(hash / 256, ix as u32, (hash % 256) as u8);
    }

    fn find_longest_match<D: DictionarySource>(
        &mut self,
        backend: Backend,
        dictionary: &mut D,
        query: &MatchQuery,
        out: &mut SearchResult,
    ) {
        let min_score: usize = out.score;
        let hash: usize = Self::hash_with_tag(query.data, query.cur_ix & query.mask);
        let key: usize = hash / 256;
        let tag: u8 = (hash % 256) as u8;
        if matches!(self.layout, Layout::Dense) {
            self.search_dense(backend, query, key, tag, out);
        } else {
            self.search_on_demand(backend, query, key, tag, out);
        }
        if min_score == out.score {
            query.search_dictionary(dictionary, out, false);
        }
    }
}

impl<const HASH64: bool, const BUCKETS: usize, const BLOCK: usize> BucketMatcher<
    HASH64,
    BUCKETS,
    BLOCK,
> {
    /// Every tag of a bucket is the tag of the bytes its position still holds,
    /// and the positions are the stream's, newest first.
    pub open spec fn fresh(&self, query: &MatchQuery, key: int) -> bool {
        let positions = self.positions(key);
        &&& self.tags(key).len() == positions.len()
        &&& positions.len() > 0 ==> positions[0] <= query.cur_ix
        &&& forall|i: int, j: int|
            0 <= i < j < positions.len() ==> #[trigger] positions[j] < #[trigger] positions[i]
        &&& forall|i: int|
            0 <= i < positions.len() ==> #[trigger] self.tags(key)[i] == Self::tag_of(
                query.data@,
                ((positions[i] as usize) & query.mask) as int,
            )
    }

    /// The tag filter changes no result: a search over four-byte hashes finds
    /// on every backend what the scalar one finds.
    pub proof fn lemma_backends_agree(
        &self,
        backend: BackendKind,
        query: &MatchQuery,
        out: SearchResult,
    )
        requires
            self.inv(),
            query.wf(),
            !HASH64,
            self.filtered(Self::key_of(query.data@, query.here())) ==> self.fresh(
                query,
                Self::key_of(query.data@, query.here()),
            ),
        ensures
            self.result(backend, query, out) == self.result(BackendKind::Scalar, query, out),
    {
        let key = Self::key_of(query.data@, query.here());
        let tag = Self::tag_of(query.data@, query.here());
        let positions = self.positions(key);
        let tags = self.tags(key);
        block::lemma_picked_all(positions, tag, 0);
        if self.filtered(key) && block::filters(backend, BLOCK as int) {
            let (probed_len, probed) = search::probed(
                query,
                0,
                search::distances_for(BLOCK as int),
                out.len as int,
                Found { len: 0, distance: 0, score: out.score },
            );
            let best_len = if probed_len < 3 {
                3
            } else {
                probed_len
            };
            let best = Best {
                len: best_len as u32,
                word: search::half_at(query.data@, query.here() + best_len - 3),
            };
            assert forall|i: int| 0 <= i < positions.len() && tags[i] != tag implies block::hopeless(
                query,
                #[trigger] positions[i],
            ) by {
                let at = ((positions[i] as usize) & query.mask) as int;
                assert(tags[i] == Self::tag_of(query.data@, at));
                if !block::hopeless(query, positions[i]) {
                    search::lemma_four_agree(
                        query.data@,
                        at,
                        query.here(),
                        query.max_length as int,
                    );
                }
            }
            block::lemma_filter_harmless(query, positions, tags, tag, 0, best, probed);
        }
    }

    /// The layouts agree: two matchers whose bucket holds the same positions
    /// find the same match on the scalar backend.
    pub proof fn lemma_layouts_agree(&self, other: &Self, query: &MatchQuery, out: SearchResult)
        requires
            self.positions(Self::key_of(query.data@, query.here())) == other.positions(
                Self::key_of(query.data@, query.here()),
            ),
        ensures
            self.result(BackendKind::Scalar, query, out) == other.result(
                BackendKind::Scalar,
                query,
                out,
            ),
    {
    }

    /// Storing the same position keeps two matchers holding the same positions,
    /// whatever their layouts.
    pub proof fn lemma_stores_agree(
        &self,
        before: &Self,
        other: &Self,
        other_before: &Self,
        key: int,
        ix: u32,
        tag: u8,
    )
        requires
            self.stored(before, key, ix, tag),
            other.stored(other_before, key, ix, tag),
            before.records(),
            other_before.records(),
            forall|k: int|
                0 <= k < BUCKETS ==> #[trigger] before.positions(k) == other_before.positions(k),
            forall|k: int|
                0 <= k < BUCKETS ==> #[trigger] before.count_of(k) == other_before.count_of(k),
        ensures
            forall|k: int| 0 <= k < BUCKETS ==> #[trigger] self.positions(k) == other.positions(k),
            forall|k: int| 0 <= k < BUCKETS ==> #[trigger] self.count_of(k) == other.count_of(k),
    {
        assert forall|k: int| 0 <= k < BUCKETS implies #[trigger] self.positions(k)
            == other.positions(k) by {
            assert(before.positions(k) == other_before.positions(k));
            assert(before.count_of(k) == other_before.count_of(k));
        }
        assert forall|k: int| 0 <= k < BUCKETS implies #[trigger] self.count_of(k)
            == other.count_of(k) by {
            assert(before.count_of(k) == other_before.count_of(k));
        }
    }
}

} // verus!
