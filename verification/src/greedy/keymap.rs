//! Index from bucket key to store counter and block offset, for short streams.
use vstd::prelude::*;

use crate::greedy::probing;
use crate::greedy::slots;
use crate::math;
use crate::shared::fast_log::next_power_of_two;

verus! {

/// The word no real entry reaches.
pub const EMPTY: u64 = 0xFFFF_FFFF_FFFF_FFFF;

/// Keys an entry can name.
pub const KEY_LIMIT: usize = 0xFFFF;

/// The key an entry belongs to; the all-ones word is empty.
pub open spec fn entry_key(entry: u64) -> Option<int> {
    if entry == EMPTY {
        None
    } else {
        Some((entry >> 48) as int)
    }
}

/// The keys a table's entries belong to.
pub open spec fn entry_keys(entries: Seq<u64>) -> Seq<Option<int>> {
    Seq::new(entries.len(), |i: int| entry_key(entries[i]))
}

/// The counter and offset of an entry; an empty one holds zeros.
pub open spec fn fields(entry: u64) -> (u16, u32) {
    if entry == EMPTY {
        (0, 0)
    } else {
        ((entry >> 32) as u16, entry as u32)
    }
}

/// Open-addressing index from bucket key to store counter and block offset.
///
/// Entries pack the key above the counter above the offset.
pub struct KeyMap {
    /// The table, empty or a power of two long.
    pub entries: Vec<u64>,
    /// How many entries are in use.
    pub count: usize,
}

impl KeyMap {
    /// The key of every index.
    pub open spec fn keys(&self) -> Seq<Option<int>> {
        entry_keys(self.entries@)
    }

    /// The table is a power of two long, at most half full, and every entry is
    /// found from its key.
    pub open spec fn wf(&self) -> bool {
        &&& self.entries@.len() <= 0x8_0000
        &&& self.count == probing::occupied(self.keys(), self.entries@.len() as int)
        &&& 2 * self.count <= self.entries@.len()
        &&& self.entries@.len() > 0 ==> math::is_pow2(self.entries@.len() as int)
            && self.entries@.len() >= 64
        &&& probing::table_ok(self.keys())
        &&& forall|i: int|
            0 <= i < self.entries@.len() ==> (#[trigger] self.entries@[i] == EMPTY || self.entries@[i]
                >> 48 < KEY_LIMIT)
    }

    /// What a key holds: zeros unless it was set.
    pub open spec fn value(&self, key: int) -> (u16, u32) {
        if probing::holds(self.keys(), key) {
            fields(self.entries@[probing::index_of(self.keys(), key)])
        } else {
            (0, 0)
        }
    }

    /// There are only so many keys, so a table that is half full can double.
    proof fn lemma_room_to_grow(&self)
        requires
            self.wf(),
            2 * (self.count + 1) > self.entries@.len(),
        ensures
            self.entries@.len() <= 0x4_0000,
    {
        let len = self.entries@.len() as int;
        assert forall|i: int| 0 <= i < len && (#[trigger] self.keys()[i]) is Some implies 0
            <= self.keys()[i]->0 < KEY_LIMIT by {
            assert(self.entries@[i] != EMPTY);
        }
        probing::lemma_occupied_limit(self.keys(), KEY_LIMIT as int, len);
    }

    /// Returns the slot `key` occupies, or the empty slot it would take, with
    /// the entry found there.
    fn find(&self, key: usize) -> (found: (usize, u64))
        requires
            self.wf(),
            self.entries@.len() > 0,
            key < KEY_LIMIT,
        ensures
            probing::stops_at(self.keys(), key as int, found.0 as int),
            found.1 == self.entries@[found.0 as int],
    {
        let len: usize = self.entries.len();
        let mask: usize = len - 1;
        let ghost k = math::exponent(len as int);
        let ghost keys = self.keys();
        proof {
            math::lemma_exponent(len as int);
            math::lemma_exponent_fits(len);
        }
        let mut tried: usize = 0;
        loop
            invariant_except_break
                tried < len,
                probing::passes(keys, key as int, tried as int),
            invariant
                self.wf(),
                keys == self.keys(),
                len == self.entries@.len(),
                len > 0,
                mask == len - 1,
                k < usize::BITS,
                len == vstd::arithmetic::power2::pow2(k),
                key < KEY_LIMIT,
                len <= 0x8_0000,
                self.count < len,
            decreases len - tried,
        {
            let slot: usize = (key + tried) & mask;
            proof {
                math::lemma_mask_is_mod((key + tried) as usize, len, k);
                assert(slot == probing::step(len as int, key as int, tried as int));
            }
            let entry: u64 = self.entries[slot];
            if entry == EMPTY || (entry >> 48) == key as u64 {
                assert(probing::step(keys.len() as int, key as int, tried as int) == slot
                    && probing::passes(keys, key as int, tried as int));
                return (slot, entry);
            }
            proof {
                assert forall|e: int| 0 <= e < tried + 1 implies (#[trigger] keys[probing::step(
                    keys.len() as int,
                    key as int,
                    e,
                )]) is Some && keys[probing::step(keys.len() as int, key as int, e)] != Some(
                    key as int,
                ) by {}
                if tried + 1 == len {
                    probing::lemma_search_stops(keys, key as int);
                }
            }
            tried += 1;
        }
    }

    /// Decodes the counter and offset of an entry; an empty one holds zeros.
    pub fn decode(entry: u64) -> (held: (u16, u32))
        ensures
            held == fields(entry),
    {
        if entry == EMPTY {
            (0, 0)
        } else {
            ((entry >> 32) as u16, entry as u32)
        }
    }

    /// Returns the slot a store into `key` writes and the counter and offset it
    /// holds, growing the map first when it is more than half full so the slot
    /// stays valid.
    pub fn slot_for_write(&mut self, key: usize) -> (found: (usize, u16, u32))
        requires
            old(self).wf(),
            key < KEY_LIMIT,
        ensures
            final(self).wf(),
            2 * (final(self).count + 1) <= final(self).entries@.len(),
            final(self).count == old(self).count,
            probing::stops_at(final(self).keys(), key as int, found.0 as int),
            (found.1, found.2) == old(self).value(key as int),
            forall|s: int| #[trigger] final(self).value(s) == old(self).value(s),
            final(self).entries@.len() == if 2 * (old(self).count + 1) > old(self).entries@.len() {
                if old(self).entries@.len() < 32 {
                    64
                } else {
                    2 * old(self).entries@.len()
                }
            } else {
                old(self).entries@.len()
            },
    {
        if 2 * (self.count + 1) > self.entries.len() {
            proof {
                self.lemma_room_to_grow();
            }
            self.grow();
        }
        let (slot, entry) = self.find(key);
        proof {
            probing::lemma_search_decides(self.keys(), key as int, slot as int);
            assert(self.value(key as int) == fields(entry));
        }
        let (count, offset) = Self::decode(entry);
        (slot, count, offset)
    }

    /// Records `count` and `offset` for `key` at `slot`, which
    /// [`KeyMap::slot_for_write`] returned for that key.
    pub fn write_slot(&mut self, slot: usize, key: usize, count: u16, offset: u32)
        requires
            old(self).wf(),
            2 * (old(self).count + 1) <= old(self).entries@.len(),
            key < KEY_LIMIT,
            probing::stops_at(old(self).keys(), key as int, slot as int),
        ensures
            final(self).wf(),
            final(self).entries@.len() == old(self).entries@.len(),
            final(self).count == old(self).count + if probing::holds(old(self).keys(), key as int) {
                0int
            } else {
                1
            },
            forall|s: int|
                #[trigger] final(self).value(s) == if s == key {
                    (count, offset)
                } else {
                    old(self).value(s)
                },
            probing::holds(final(self).keys(), key as int),
            forall|s: int|
                s != key ==> #[trigger] probing::holds(final(self).keys(), s) == probing::holds(
                    old(self).keys(),
                    s,
                ),
    {
        let ghost before = *self;
        let entry: u64 = self.entries[slot];
        proof {
            probing::lemma_search_decides(before.keys(), key as int, slot as int);
            probing::lemma_insert_keeps_table(before.keys(), key as int, slot as int);
            probing::lemma_occupied_update(
                before.keys(),
                slot as int,
                key as int,
                before.entries@.len() as int,
            );
            math::lemma_key_entry(key as u64, count, offset);
        }
        if entry == EMPTY {
            self.count = self.count + 1;
        }
        let fresh: u64 = ((key as u64) << 48) | ((count as u64) << 32) | offset as u64;
        self.entries.set(slot, fresh);
        proof {
            assert(self.keys() =~= before.keys().update(slot as int, Some(key as int)));
            probing::lemma_insert_lookup(before.keys(), key as int, slot as int, key as int);
            assert forall|s: int| #[trigger] self.value(s) == if s == key {
                (count, offset)
            } else {
                before.value(s)
            } by {
                probing::lemma_insert_lookup(before.keys(), key as int, slot as int, s);
            }
            assert forall|s: int| s != key implies #[trigger] probing::holds(self.keys(), s)
                == probing::holds(before.keys(), s) by {
                probing::lemma_insert_lookup(before.keys(), key as int, slot as int, s);
            }
        }
    }

    /// Returns the counter and offset stored for `key`, or zeros.
    pub fn get(&self, key: usize) -> (held: (u16, u32))
        requires
            self.wf(),
            key < KEY_LIMIT,
        ensures
            held == self.value(key as int),
    {
        if self.entries.len() == 0 {
            return (0, 0);
        }
        let (slot, entry) = self.find(key);
        proof {
            probing::lemma_search_decides(self.keys(), key as int, slot as int);
        }
        Self::decode(entry)
    }

    /// Records `count` and `offset` for `key`, growing the map when it is more
    /// than half full.
    pub fn set(&mut self, key: usize, count: u16, offset: u32)
        requires
            old(self).wf(),
            key < KEY_LIMIT,
        ensures
            final(self).wf(),
            forall|s: int|
                #[trigger] final(self).value(s) == if s == key {
                    (count, offset)
                } else {
                    old(self).value(s)
                },
    {
        let (slot, _, _) = self.slot_for_write(key);
        self.write_slot(slot, key, count, offset);
    }

    /// Doubles the table, keeping what every key holds.
    fn grow(&mut self)
        requires
            old(self).wf(),
            old(self).entries@.len() <= 0x4_0000,
        ensures
            final(self).wf(),
            forall|s: int| #[trigger] final(self).value(s) == old(self).value(s),
            final(self).count == old(self).count,
            final(self).entries@.len() == if old(self).entries@.len() < 32 {
                64
            } else {
                2 * old(self).entries@.len()
            },
    {
        let ghost before = *self;
        let len: usize = self.entries.len();
        let size: usize = if len < 32 {
            64
        } else {
            len * 2
        };
        let mut fresh = KeyMap { entries: vec![EMPTY; size], count: 0 };
        proof {
            lemma_fresh_size(len as int, size as int);
            probing::lemma_empty_table(fresh.keys(), size as int);
            probing::lemma_occupied_bounds(before.keys(), len as int);
        }
        let mut i: usize = 0;
        while i < len
            invariant
                i <= len,
                len == before.entries@.len(),
                before == *self,
                before.wf(),
                size == if len < 32 {
                    64
                } else {
                    2 * len
                },
                fresh.wf(),
                fresh.entries@.len() == size,
                fresh.count == probing::occupied(before.keys(), i as int),
                forall|s: int| #[trigger] probing::holds(fresh.keys(), s) ==> exists|j: int|
                    0 <= j < i && #[trigger] before.keys()[j] == Some(s),
                forall|j: int|
                    #![trigger before.keys()[j]]
                    0 <= j < i && before.keys()[j] is Some ==> probing::holds(
                        fresh.keys(),
                        before.keys()[j]->0,
                    ) && fresh.value(before.keys()[j]->0) == before.value(before.keys()[j]->0),
            decreases len - i,
        {
            let entry: u64 = self.entries[i];
            proof {
                slots::lemma_occupied_prefix(before.keys(), i as int, len as int);
                assert(before.keys()[i as int] == entry_key(entry));
            }
            if entry != EMPTY {
                let ghost held = fresh;
                let key: usize = (entry >> 48) as usize;
                let (count, offset) = Self::decode(entry);
                proof {
                    probing::lemma_only_index(before.keys(), key as int, i as int);
                    assert(before.value(key as int) == (count, offset));
                    if probing::holds(held.keys(), key as int) {
                        let j = choose|j: int|
                            0 <= j < i && #[trigger] before.keys()[j] == Some(key as int);
                        probing::lemma_only_index(before.keys(), key as int, j);
                    }
                }
                let (slot, _) = fresh.find(key);
                fresh.write_slot(slot, key, count, offset);
                proof {
                    assert forall|s: int| #[trigger] probing::holds(fresh.keys(), s) implies exists|j: int|
                        0 <= j < i + 1 && #[trigger] before.keys()[j] == Some(s) by {
                        if s == key {
                            assert(before.keys()[i as int] == Some(s));
                        } else {
                            assert(probing::holds(held.keys(), s));
                            let j = choose|j: int| 0 <= j < i && #[trigger] before.keys()[j] == Some(s);
                            assert(before.keys()[j] == Some(s));
                        }
                    }
                }
            }
            i += 1;
        }
        proof {
            assert forall|s: int| #[trigger] fresh.value(s) == before.value(s) by {
                if probing::holds(before.keys(), s) {
                    let j = probing::index_of(before.keys(), s);
                    assert(before.keys()[j] == Some(s));
                } else if probing::holds(fresh.keys(), s) {
                    let j = choose|j: int| 0 <= j < len && #[trigger] before.keys()[j] == Some(s);
                    assert(before.keys()[j] == Some(s));
                }
            }
        }
        *self = fresh;
    }

    /// Empties the map, sized so `input_size` distinct keys never grow it.
    pub fn reset(&mut self, input_size: usize)
        requires
            old(self).wf(),
            input_size <= 0x1_0000,
        ensures
            final(self).wf(),
            final(self).count == 0,
            forall|s: int| #[trigger] final(self).value(s) == (0u16, 0u32),
            final(self).entries@.len() >= 64,
            final(self).entries@.len() >= 2 * input_size,
            final(self).entries@.len() >= old(self).entries@.len(),
            final(self).entries@.len() > old(self).entries@.len() ==> final(self).entries@.len() <= 64
                || final(self).entries@.len() < 4 * input_size,
    {
        let rounded: usize = next_power_of_two(2 * input_size);
        let size: usize = if rounded < 64 {
            64
        } else {
            rounded
        };
        let len: usize = if self.entries.len() < size {
            size
        } else {
            self.entries.len()
        };
        self.entries = vec![EMPTY; len];
        self.count = 0;
        proof {
            vstd::arithmetic::power2::lemma2_to64();
            assert(64 == vstd::arithmetic::power2::pow2(6));
            probing::lemma_empty_table(self.keys(), len as int);
            assert forall|s: int| #[trigger] self.value(s) == (0u16, 0u32) by {
                if probing::holds(self.keys(), s) {
                    let j = probing::index_of(self.keys(), s);
                    assert(self.keys()[j] is None);
                }
            }
        }
    }
}

impl Default for KeyMap {
    /// A map that holds nothing.
    fn default() -> (map: Self)
        ensures
            map.wf(),
            map.count == 0,
            map.entries@.len() == 0,
            forall|s: int| #[trigger] map.value(s) == (0u16, 0u32),
    {
        KeyMap { entries: Vec::new(), count: 0 }
    }
}

/// Doubling a table length keeps it a power of two.
proof fn lemma_fresh_size(len: int, size: int)
    requires
        size == if len < 32 {
            64
        } else {
            2 * len
        },
        len == 0 || math::is_pow2(len),
        len == 0 || len >= 64,
    ensures
        math::is_pow2(size),
        size >= 64,
{
    vstd::arithmetic::power2::lemma2_to64();
    if len < 32 {
        assert(64 == vstd::arithmetic::power2::pow2(6));
    } else {
        math::lemma_exponent(len);
        vstd::arithmetic::power2::lemma_pow2_unfold(math::exponent(len) + 1);
        assert(size == vstd::arithmetic::power2::pow2(math::exponent(len) + 1));
    }
}

} // verus!
