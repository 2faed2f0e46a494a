//! Sparse slots for short streams.
use vstd::prelude::*;

use crate::greedy::probing;
use crate::math;
use crate::shared::fast_log::next_power_of_two;

verus! {

/// Bits of an entry holding the position plus one.
pub const SMALL_SLOTS_VALUE_BITS: u32 = 15;

/// Mask of the position field of an entry.
pub const SMALL_SLOTS_VALUE_MASK: u32 = 0x7FFF;

/// Longest one-shot stream whose positions an entry can hold.
pub const SMALL_SLOTS_MAX_INPUT: usize = 0x7FFF;

/// Slots an entry can name.
pub const SMALL_SLOTS_LIMIT: usize = 0x2_0000;

/// The slot an entry belongs to; zero is empty.
pub open spec fn slot_key(entry: u32) -> Option<int> {
    if entry == 0 {
        None
    } else {
        Some((entry >> 15) as int)
    }
}

/// The slots a table's entries belong to.
pub open spec fn slot_keys(entries: Seq<u32>) -> Seq<Option<int>> {
    Seq::new(entries.len(), |i: int| slot_key(entries[i]))
}

/// Sparse logical slots for short streams. A missing slot reads as zero, like a
/// freshly initialised full table.
///
/// An entry packs the slot above the position plus one, so zero is empty and
/// the map is a zeroed word per entry.
pub struct SmallSlots {
    /// The open-addressed table, empty or a power of two long.
    pub entries: Vec<u32>,
    /// How many entries are in use.
    pub count: usize,
}

impl SmallSlots {
    /// The slot of every index.
    pub open spec fn keys(&self) -> Seq<Option<int>> {
        slot_keys(self.entries@)
    }

    /// The table is a power of two long, at most half full, and every entry is
    /// found from its slot.
    pub open spec fn wf(&self) -> bool {
        &&& self.entries@.len() <= 0x8_0000
        &&& self.count == probing::occupied(self.keys(), self.entries@.len() as int)
        &&& 2 * self.count <= self.entries@.len()
        &&& self.entries@.len() > 0 ==> math::is_pow2(self.entries@.len() as int)
            && self.entries@.len() >= 32
        &&& probing::table_ok(self.keys())
        &&& forall|i: int|
            0 <= i < self.entries@.len() && self.entries@[i] != 0 ==> #[trigger] self.entries@[i]
                & SMALL_SLOTS_VALUE_MASK != 0
    }

    /// What a slot holds: zero unless it was written.
    pub open spec fn value(&self, slot: int) -> u32 {
        if probing::holds(self.keys(), slot) {
            ((self.entries@[probing::index_of(self.keys(), slot)] & SMALL_SLOTS_VALUE_MASK) - 1) as u32
        } else {
            0
        }
    }

    /// There are only so many slots, so a table that is half full can double.
    proof fn lemma_room_to_grow(&self)
        requires
            self.wf(),
            2 * (self.count + 1) > self.entries@.len(),
        ensures
            self.entries@.len() <= 0x4_0000,
    {
        let len = self.entries@.len() as int;
        assert forall|i: int| 0 <= i < len && (#[trigger] self.keys()[i]) is Some implies 0
            <= self.keys()[i]->0 < SMALL_SLOTS_LIMIT by {
            math::lemma_slot_fields(self.entries@[i]);
        }
        probing::lemma_occupied_limit(self.keys(), SMALL_SLOTS_LIMIT as int, len);
        if len > 0x4_0000 {
            math::lemma_exponent(len);
            let k = math::exponent(len);
            vstd::arithmetic::power2::lemma2_to64();
            if k <= 18 {
                if k < 18 {
                    vstd::arithmetic::power2::lemma_pow2_strictly_increases(k, 18);
                }
            } else if k > 19 {
                vstd::arithmetic::power2::lemma_pow2_strictly_increases(19, k);
            }
        }
    }

    /// Returns the index `slot` occupies, or the empty index it would take.
    fn find(&self, slot: usize) -> (index: usize)
        requires
            self.wf(),
            self.entries@.len() > 0,
            slot < SMALL_SLOTS_LIMIT,
            2 * self.count < 2 * self.entries@.len(),
        ensures
            probing::stops_at(self.keys(), slot as int, index as int),
    {
        let len: usize = self.entries.len();
        let mask: usize = len - 1;
        let tag: u32 = (slot as u32) << SMALL_SLOTS_VALUE_BITS;
        let ghost k = math::exponent(len as int);
        let ghost keys = self.keys();
        proof {
            math::lemma_exponent(len as int);
            math::lemma_exponent_fits(len);
        }
        let mut tried: usize = 0;
        loop
            invariant_except_break
                tried < len,
                probing::passes(keys, slot as int, tried as int),
            invariant
                self.wf(),
                keys == self.keys(),
                len == self.entries@.len(),
                len > 0,
                mask == len - 1,
                k < usize::BITS,
                len == vstd::arithmetic::power2::pow2(k),
                slot < SMALL_SLOTS_LIMIT,
                len <= 0x8_0000,
                tag == (slot as u32) << SMALL_SLOTS_VALUE_BITS,
                self.count < len,
            decreases len - tried,
        {
            let index: usize = (slot + tried) & mask;
            proof {
                math::lemma_mask_is_mod((slot + tried) as usize, len, k);
                assert(index == probing::step(len as int, slot as int, tried as int));
            }
            let entry: u32 = self.entries[index];
            proof {
                math::lemma_slot_tag(entry, slot as u32);
            }
            if entry == 0 || entry & !SMALL_SLOTS_VALUE_MASK == tag {
                assert(probing::step(keys.len() as int, slot as int, tried as int) == index
                    && probing::passes(keys, slot as int, tried as int));
                return index;
            }
            proof {
                assert forall|e: int| 0 <= e < tried + 1 implies (#[trigger] keys[probing::step(
                    keys.len() as int,
                    slot as int,
                    e,
                )]) is Some && keys[probing::step(keys.len() as int, slot as int, e)] != Some(
                    slot as int,
                ) by {}
                if tried + 1 == len {
                    probing::lemma_search_stops(keys, slot as int);
                }
            }
            tried += 1;
        }
    }

    /// Returns what `slot` holds.
    pub fn read(&self, slot: usize) -> (value: u32)
        requires
            self.wf(),
            slot < SMALL_SLOTS_LIMIT,
        ensures
            value == self.value(slot as int),
    {
        if self.entries.len() == 0 {
            return 0;
        }
        let index: usize = self.find(slot);
        proof {
            probing::lemma_search_decides(self.keys(), slot as int, index as int);
        }
        let entry: u32 = self.entries[index];
        if entry == 0 {
            0
        } else {
            (entry & SMALL_SLOTS_VALUE_MASK) - 1
        }
    }

    /// Writes `value` into `slot`.
    pub fn write(&mut self, slot: usize, value: u32)
        requires
            old(self).wf(),
            slot < SMALL_SLOTS_LIMIT,
            value < SMALL_SLOTS_VALUE_MASK,
        ensures
            final(self).wf(),
            forall|s: int|
                #[trigger] final(self).value(s) == if s == slot {
                    value
                } else {
                    old(self).value(s)
                },
    {
        self.replace(slot, value);
    }

    /// Writes `value` into `slot`, returning what it held, or zero.
    pub fn replace(&mut self, slot: usize, value: u32) -> (previous: u32)
        requires
            old(self).wf(),
            slot < SMALL_SLOTS_LIMIT,
            value < SMALL_SLOTS_VALUE_MASK,
        ensures
            final(self).wf(),
            previous == old(self).value(slot as int),
            forall|s: int|
                #[trigger] final(self).value(s) == if s == slot {
                    value
                } else {
                    old(self).value(s)
                },
            final(self).entries@.len() == if 2 * (old(self).count + 1) > old(self).entries@.len() {
                if old(self).entries@.len() < 16 {
                    32
                } else {
                    2 * old(self).entries@.len()
                }
            } else {
                old(self).entries@.len()
            },
            old(self).count <= final(self).count <= old(self).count + 1,
    {
        if 2 * (self.count + 1) > self.entries.len() {
            proof {
                self.lemma_room_to_grow();
            }
            self.grow();
        }
        self.place(slot, value)
    }

    /// Writes `value` into `slot` of a table with room, returning what it held, or zero.
    fn place(&mut self, slot: usize, value: u32) -> (previous: u32)
        requires
            old(self).wf(),
            2 * (old(self).count + 1) <= old(self).entries@.len(),
            slot < SMALL_SLOTS_LIMIT,
            value < SMALL_SLOTS_VALUE_MASK,
        ensures
            final(self).wf(),
            previous == old(self).value(slot as int),
            forall|s: int|
                #[trigger] final(self).value(s) == if s == slot {
                    value
                } else {
                    old(self).value(s)
                },
            final(self).entries@.len() == old(self).entries@.len(),
            final(self).count == old(self).count + if probing::holds(old(self).keys(), slot as int) {
                0int
            } else {
                1
            },
            probing::holds(final(self).keys(), slot as int),
            forall|s: int|
                s != slot ==> #[trigger] probing::holds(final(self).keys(), s) == probing::holds(
                    old(self).keys(),
                    s,
                ),
    {
        let ghost before = *self;
        let index: usize = self.find(slot);
        let entry: u32 = self.entries[index];
        proof {
            probing::lemma_search_decides(before.keys(), slot as int, index as int);
            probing::lemma_insert_keeps_table(before.keys(), slot as int, index as int);
            probing::lemma_occupied_update(
                before.keys(),
                index as int,
                slot as int,
                before.entries@.len() as int,
            );
            math::lemma_slot_entry(slot as u32, value);
        }
        let previous: u32 = if entry == 0 {
            self.count = self.count + 1;
            0
        } else {
            (entry & SMALL_SLOTS_VALUE_MASK) - 1
        };
        let fresh: u32 = ((slot as u32) << SMALL_SLOTS_VALUE_BITS) | (value + 1);
        self.entries.set(index, fresh);
        proof {
            assert(self.keys() =~= before.keys().update(index as int, Some(slot as int)));
            probing::lemma_insert_lookup(before.keys(), slot as int, index as int, slot as int);
            assert forall|s: int| #[trigger] self.value(s) == if s == slot {
                value
            } else {
                before.value(s)
            } by {
                probing::lemma_insert_lookup(before.keys(), slot as int, index as int, s);
            }
            assert forall|s: int| s != slot implies #[trigger] probing::holds(self.keys(), s)
                == probing::holds(before.keys(), s) by {
                probing::lemma_insert_lookup(before.keys(), slot as int, index as int, s);
            }
        }
        previous
    }

    /// Doubles the table, keeping what every slot holds.
    fn grow(&mut self)
        requires
            old(self).wf(),
            old(self).entries@.len() <= 0x4_0000,
        ensures
            final(self).wf(),
            forall|s: int| #[trigger] final(self).value(s) == old(self).value(s),
            final(self).count == old(self).count,
            final(self).entries@.len() == if old(self).entries@.len() < 16 {
                32
            } else {
                2 * old(self).entries@.len()
            },
    {
        let ghost before = *self;
        let len: usize = self.entries.len();
        let size: usize = if len < 16 {
            32
        } else {
            len * 2
        };
        let mut fresh = SmallSlots { entries: vec![0u32; size], count: 0 };
        proof {
            lemma_fresh_size(len as int, size as int);
            probing::lemma_empty_table(fresh.keys(), size as int);
            probing::lemma_occupied_bounds(before.keys(), len as int);
        }
        let mut i: usize = 0;
        while i < len
            invariant
                i <= len,
                len == before.entries@.len(),
                before == *self,
                before.wf(),
                size == if len < 16 {
                    32
                } else {
                    2 * len
                },
                fresh.wf(),
                fresh.entries@.len() == size,
                fresh.count == probing::occupied(before.keys(), i as int),
                forall|s: int| #[trigger] probing::holds(fresh.keys(), s) ==> exists|j: int|
                    0 <= j < i && #[trigger] before.keys()[j] == Some(s),
                forall|j: int|
                    #![trigger before.keys()[j]]
                    0 <= j < i && before.keys()[j] is Some ==> probing::holds(
                        fresh.keys(),
                        before.keys()[j]->0,
                    ) && fresh.value(before.keys()[j]->0) == before.value(before.keys()[j]->0),
            decreases len - i,
        {
            let entry: u32 = self.entries[i];
            proof {
                lemma_occupied_prefix(before.keys(), i as int, len as int);
                assert(before.keys()[i as int] == slot_key(entry));
            }
            if entry != 0 {
                let ghost held = fresh;
                let slot: usize = (entry >> SMALL_SLOTS_VALUE_BITS) as usize;
                let value: u32 = (entry & SMALL_SLOTS_VALUE_MASK) - 1;
                proof {
                    math::lemma_slot_fields(entry);
                    probing::lemma_only_index(before.keys(), slot as int, i as int);
                    assert(before.value(slot as int) == value);
                    if probing::holds(held.keys(), slot as int) {
                        let j = choose|j: int|
                            0 <= j < i && #[trigger] before.keys()[j] == Some(slot as int);
                        probing::lemma_only_index(before.keys(), slot as int, j);
                    }
                }
                fresh.place(slot, value);
                proof {
                    assert forall|s: int| #[trigger] probing::holds(fresh.keys(), s) implies exists|j: int|
                        0 <= j < i + 1 && #[trigger] before.keys()[j] == Some(s) by {
                        if s == slot {
                            assert(before.keys()[i as int] == Some(s));
                        } else {
                            assert(probing::holds(held.keys(), s));
                            let j = choose|j: int| 0 <= j < i && #[trigger] before.keys()[j] == Some(s);
                            assert(before.keys()[j] == Some(s));
                        }
                    }
                }
            }
            i += 1;
        }
        proof {
            assert forall|s: int| #[trigger] fresh.value(s) == before.value(s) by {
                if probing::holds(before.keys(), s) {
                    let j = probing::index_of(before.keys(), s);
                    assert(before.keys()[j] == Some(s));
                } else if probing::holds(fresh.keys(), s) {
                    let j = choose|j: int| 0 <= j < len && #[trigger] before.keys()[j] == Some(s);
                    assert(before.keys()[j] == Some(s));
                }
            }
        }
        *self = fresh;
    }

    /// Empties the map, sized so `input_size` distinct slots never grow it.
    pub fn reset(&mut self, input_size: usize)
        requires
            old(self).wf(),
            input_size <= SMALL_SLOTS_MAX_INPUT,
        ensures
            final(self).wf(),
            final(self).count == 0,
            forall|s: int| #[trigger] final(self).value(s) == 0,
            final(self).entries@.len() >= 32,
            final(self).entries@.len() >= 2 * input_size,
            final(self).entries@.len() >= old(self).entries@.len(),
            final(self).entries@.len() > old(self).entries@.len() ==> final(self).entries@.len() <= 32
                || final(self).entries@.len() < 4 * input_size,
    {
        let rounded: usize = next_power_of_two(2 * input_size);
        let size: usize = if rounded < 32 {
            32
        } else {
            rounded
        };
        let len: usize = if self.entries.len() < size {
            size
        } else {
            self.entries.len()
        };
        self.entries = vec![0u32; len];
        self.count = 0;
        proof {
            vstd::arithmetic::power2::lemma2_to64();
            assert(32 == vstd::arithmetic::power2::pow2(5));
            probing::lemma_empty_table(self.keys(), len as int);
            assert forall|s: int| #[trigger] self.value(s) == 0 by {
                if probing::holds(self.keys(), s) {
                    let j = probing::index_of(self.keys(), s);
                    assert(self.keys()[j] is None);
                }
            }
        }
    }
}

impl Default for SmallSlots {
    /// A map that holds nothing.
    fn default() -> (slots: Self)
        ensures
            slots.wf(),
            slots.count == 0,
            slots.entries@.len() == 0,
            forall|s: int| #[trigger] slots.value(s) == 0,
    {
        SmallSlots { entries: Vec::new(), count: 0 }
    }
}

/// Doubling a table length keeps it a power of two.
proof fn lemma_fresh_size(len: int, size: int)
    requires
        size == if len < 16 {
            32
        } else {
            2 * len
        },
        len == 0 || math::is_pow2(len),
        len == 0 || len >= 32,
    ensures
        math::is_pow2(size),
        size >= 32,
{
    vstd::arithmetic::power2::lemma2_to64();
    if len < 16 {
        assert(32 == vstd::arithmetic::power2::pow2(5));
    } else {
        math::lemma_exponent(len);
        vstd::arithmetic::power2::lemma_pow2_unfold(math::exponent(len) + 1);
        assert(size == vstd::arithmetic::power2::pow2(math::exponent(len) + 1));
    }
}

/// A prefix counts no more than the whole.
pub proof fn lemma_occupied_prefix(keys: Seq<Option<int>>, i: int, to: int)
    requires
        0 <= i <= to,
    ensures
        probing::occupied(keys, i) <= probing::occupied(keys, to),
        i < to ==> probing::occupied(keys, i + 1) <= probing::occupied(keys, to),
    decreases to - i,
{
    if i < to {
        lemma_occupied_prefix(keys, i + 1, to);
    }
}

} // verus!
