//! In-bounds tag filtering, preserving the bucket's newest-to-oldest order.
use vstd::prelude::*;

use crate::backend;
use crate::backend::{
    native_lanes_16, native_lanes_32, plain_lanes, scalar_lanes_16, Backend, BackendKind,
};
use crate::math;

verus! {

/// One bit per byte equal to `tag`, least significant bit for the first slot.
pub fn matching_mask(backend: Backend, bytes: &[u8], tag: u8) -> (mask: u64)
    requires
        bytes@.len() == 16,
    ensures
        forall|i: int|
            0 <= i < 64 ==> (#[trigger] math::word_bit(mask, i) <==> (i < 16 && bytes@[i] == tag)),
{
    let lanes: [u8; 16] = [tag; 16];
    let ghost all = lanes@;
    let native: Option<u64> = if backend.is_scalar() {
        Some(scalar_lanes_16(bytes, &lanes))
    } else {
        native_lanes_16(bytes, &lanes)
    };
    let mask: u64 = match native {
        Some(mask) => mask,
        None => plain_lanes(bytes, &lanes),
    };
    assert(backend::is_equality_mask(mask, bytes@, all));
    assert forall|i: int| 0 <= i < 64 implies (#[trigger] math::word_bit(mask, i) <==> (i < 16
        && bytes@[i] == tag)) by {
        if i < 16 {
            assert(all[i] == tag);
        }
    }
    mask
}

/// As [`matching_mask`] for 32 slots.
pub fn matching_mask_32(backend: Backend, bytes: &[u8], tag: u8) -> (mask: u64)
    requires
        bytes@.len() == 32,
    ensures
        forall|i: int|
            0 <= i < 64 ==> (#[trigger] math::word_bit(mask, i) <==> (i < 32 && bytes@[i] == tag)),
{
    let lanes: [u8; 32] = [tag; 32];
    let ghost all = lanes@;
    let native: Option<u64> = if backend.is_scalar() {
        None
    } else {
        native_lanes_32(bytes, &lanes)
    };
    let mask: u64 = match native {
        Some(mask) => mask,
        None => plain_lanes(bytes, &lanes),
    };
    assert(backend::is_equality_mask(mask, bytes@, all));
    assert forall|i: int| 0 <= i < 64 implies (#[trigger] math::word_bit(mask, i) <==> (i < 32
        && bytes@[i] == tag)) by {
        if i < 32 {
            assert(all[i] == tag);
        }
    }
    mask
}

/// The slots of a circular bucket from the newest index below `upper` down to
/// `lower`, keeping those whose tag matches, or all of them when unfiltered.
pub open spec fn walk(
    lower: int,
    upper: int,
    capacity: int,
    tags: Seq<u8>,
    tag: u8,
    filtered: bool,
) -> Seq<int>
    decreases upper - lower,
{
    if upper <= lower {
        Seq::empty()
    } else {
        let slot = (upper - 1) % capacity;
        let rest = walk(lower, upper - 1, capacity, tags, tag, filtered);
        if !filtered || tags[slot] == tag {
            seq![slot] + rest
        } else {
            rest
        }
    }
}

/// The slots a lane mask stands for, highest lane below `below` first.
pub open spec fn lane_slots(matches: u64, group: int, capacity: int, below: int) -> Seq<int>
    decreases below,
{
    if below <= 0 {
        Seq::empty()
    } else {
        let rest = lane_slots(matches, group, capacity, below - 1);
        if math::word_bit(matches, below - 1) {
            seq![(group + below - 1) % capacity] + rest
        } else {
            rest
        }
    }
}

/// Visits initialized circular slots in precisely the unfiltered scan order.
pub struct Candidates {
    upper: usize,
    lower: usize,
    group: usize,
    matches: u64,
    slot_mask: usize,
    exponent: Ghost<nat>,
}

impl Candidates {
    /// Slots in the bucket.
    pub closed spec fn capacity(&self) -> int {
        self.slot_mask + 1
    }

    /// The state is one a walk reaches.
    pub closed spec fn wf(&self) -> bool {
        &&& self.exponent@ < usize::BITS
        &&& self.slot_mask < usize::MAX
        &&& self.slot_mask + 1 == vstd::arithmetic::power2::pow2(self.exponent@)
        &&& self.lower <= self.upper <= 65535
        &&& self.group <= 65535
        &&& forall|i: int| 32 <= i < 64 ==> !#[trigger] math::word_bit(self.matches, i)
    }

    /// What is still to be visited.
    pub closed spec fn pending(&self, tags: Seq<u8>, tag: u8, filtered: bool) -> Seq<int> {
        lane_slots(self.matches, self.group as int, self.capacity(), 32) + walk(
            self.lower as int,
            self.upper as int,
            self.capacity(),
            tags,
            tag,
            filtered,
        )
    }

    /// Whether a walk over these tags compares them at all: the scalar backend
    /// keeps the unfiltered scan, and so does an empty tag array.
    pub open spec fn filters(backend: Backend, tags: Seq<u8>) -> bool {
        tags.len() != 0 && backend.of() != BackendKind::Scalar
    }

    /// Starts a walk over a bucket of `capacity` slots that was stored into `count` times.
    ///
    /// `count` wraps at sixteen bits, and a bucket whose counter wrapped holds
    /// only what came after.
    pub fn new(backend: Backend, count: u16, capacity: usize, tags: &[u8], tag: u8) -> (walker: Self)
        requires
            math::is_pow2(capacity as int),
            tags@.len() != 0 ==> 16 <= capacity <= tags@.len(),
        ensures
            walker.wf(),
            walker.capacity() == capacity,
            !Self::filters(backend, tags@) ==> walker.unmasked(),
            walker.pending(tags@, tag, Self::filters(backend, tags@)) == walk(
                if count < capacity {
                    0
                } else {
                    count - capacity
                },
                count as int,
                capacity as int,
                tags@,
                tag,
                Self::filters(backend, tags@),
            ),
    {
        let upper: usize = count as usize;
        let lower: usize = if upper < capacity {
            0
        } else {
            upper - capacity
        };
        let ghost k = math::exponent(capacity as int);
        let ghost filtered = Self::filters(backend, tags@);
        proof {
            math::lemma_exponent(capacity as int);
            math::lemma_exponent_fits(capacity);
            assert forall|i: int| 0 <= i < 64 implies !#[trigger] math::word_bit(0u64, i) by {
                math::lemma_empty_mask(i);
            }
            lemma_no_lanes(0u64, 0, capacity as int, 32);
        }
        let mut result = Candidates {
            upper,
            lower,
            group: 0,
            matches: 0,
            slot_mask: capacity - 1,
            exponent: Ghost(k),
        };
        assert(lane_slots(0u64, 0, capacity as int, 32) + walk(
            lower as int,
            upper as int,
            capacity as int,
            tags@,
            tag,
            filtered,
        ) =~= walk(lower as int, upper as int, capacity as int, tags@, tag, filtered));
        if !backend.is_scalar() && tags.len() != 0 && (capacity == 16 || capacity == 32) {
            let mask: u64 = if capacity == 16 {
                matching_mask(backend, &tags[0..16], tag)
            } else {
                matching_mask_32(backend, &tags[0..32], tag)
            };
            proof {
                assert forall|i: int| 0 <= i < 64 implies (#[trigger] math::word_bit(mask, i) <==> (i
                    < capacity && tags@[i] == tag)) by {
                    if capacity == 16 && i < 16 {
                        assert(tags@.subrange(0, 16)[i] == tags@[i]);
                    }
                    if capacity == 32 && i < 32 {
                        assert(tags@.subrange(0, 32)[i] == tags@[i]);
                    }
                }
            }
            // Rotate newest to the highest lane, then discard unwritten slots.
            let turn: usize = upper % capacity;
            let rotated: u64 = (mask >> turn) | (mask << (capacity - turn));
            let stored: usize = if upper < capacity {
                upper
            } else {
                capacity
            };
            proof {
                math::lemma_low_ones((capacity - stored) as u64);
                math::lemma_low_ones(capacity as u64);
            }
            let lanes: u64 = ((1u64 << capacity) - 1) ^ ((1u64 << (capacity - stored)) - 1);
            let matches: u64 = rotated & lanes;
            proof {
                assert forall|i: int| 0 <= i < 64 implies (#[trigger] math::word_bit(matches, i)
                    <==> (capacity - stored <= i < capacity && tags@[(i + turn) % (
                capacity as int)] == tag)) by {
                    math::lemma_lane_range(rotated, (capacity - stored) as u64, capacity as u64, i);
                    if i < capacity {
                        math::lemma_rotated(mask, turn as u64, capacity as u64, i);
                        let j = if i + turn < capacity {
                            i + turn
                        } else {
                            i + turn - capacity
                        };
                        assert(math::word_bit(mask, j) <==> tags@[j] == tag);
                        math::lemma_mod_offset(i, turn as int, capacity as int);
                        vstd::arithmetic::div_mod::lemma_small_mod(i as nat, capacity as nat);
                    }
                }
                assert forall|e: int| capacity - stored <= e < capacity implies #[trigger] (upper + e)
                    % (capacity as int) == (upper - capacity + e) % (capacity as int) by {
                    math::lemma_mod_offset(upper - capacity + e, capacity as int, capacity as int);
                }
                assert forall|e: int| capacity - stored <= e < capacity implies (#[trigger] math::word_bit(
                    matches,
                    e,
                ) <==> tags@[(upper - capacity + e) % (capacity as int)] == tag) by {
                    assert((upper + e) % (capacity as int) == (upper - capacity + e) % (
                    capacity as int));
                    lemma_turned(upper as int, e, capacity as int);
                }
                lemma_lanes_walk(
                    matches,
                    upper as int,
                    capacity as int,
                    lower as int,
                    upper as int,
                    capacity as int,
                    stored as int,
                    tags@,
                    tag,
                );
            }
            result.matches = matches;
            result.group = upper;
            result.upper = lower;
            assert(result.pending(tags@, tag, true) == walk(
                lower as int,
                upper as int,
                capacity as int,
                tags@,
                tag,
                true,
            ));
        }
        result
    }

    /// No lane is waiting to be visited.
    pub closed spec fn unmasked(&self) -> bool {
        self.matches == 0
    }

    /// Returns a physical slot; empty tags select the unfiltered scan.
    pub fn next(&mut self, backend: Backend, tags: &[u8], tag: u8) -> (slot: Option<usize>)
        requires
            old(self).wf(),
            tags@.len() != 0 ==> 16 <= old(self).capacity() <= tags@.len(),
            !Self::filters(backend, tags@) ==> old(self).unmasked(),
        ensures
            final(self).wf(),
            final(self).capacity() == old(self).capacity(),
            !Self::filters(backend, tags@) ==> final(self).unmasked(),
            ({
                let filtered = Self::filters(backend, tags@);
                let before = old(self).pending(tags@, tag, filtered);
                if before.len() == 0 {
                    slot is None && final(self).pending(tags@, tag, filtered) == before
                } else {
                    slot is Some && slot->0 == before[0] && final(self).pending(tags@, tag, filtered)
                        == before.drop_first()
                }
            }),
    {
        let ghost capacity = self.capacity();
        let ghost filtered = Self::filters(backend, tags@);
        let ghost before = self.pending(tags@, tag, filtered);
        // An unfiltered scan keeps every slot.
        if tags.len() == 0 || backend.is_scalar() {
            proof {
                assert forall|i: int| 0 <= i < 64 implies !#[trigger] math::word_bit(0u64, i) by {
                    math::lemma_empty_mask(i);
                }
                lemma_no_lanes(self.matches, self.group as int, capacity, 32);
                assert(before =~= walk(
                    self.lower as int,
                    self.upper as int,
                    capacity,
                    tags@,
                    tag,
                    filtered,
                ));
            }
            if self.upper == self.lower {
                return None;
            }
            self.upper = self.upper - 1;
            proof {
                math::lemma_mask_is_mod(self.upper, (self.slot_mask + 1) as usize, self.exponent@);
                assert(self.pending(tags@, tag, filtered) =~= before.drop_first());
            }
            return Some(self.upper & self.slot_mask);
        }
        while self.matches == 0 && self.upper != self.lower
            invariant
                self.wf(),
                self.capacity() == capacity,
                filtered,
                16 <= capacity <= tags@.len(),
                self.pending(tags@, tag, true) == before,
            decreases self.upper - self.lower,
        {
            let ghost upper = self.upper as int;
            proof {
                math::lemma_mask_is_mod(
                    (self.upper - 1) as usize,
                    (self.slot_mask + 1) as usize,
                    self.exponent@,
                );
            }
            let newest: usize = (self.upper - 1) & self.slot_mask;
            let end: usize = newest % 16 + 1;
            self.group = newest - newest % 16;
            let left: usize = self.upper - self.lower;
            let count: usize = if end < left {
                end
            } else {
                left
            };
            self.upper = self.upper - count;
            proof {
                math::lemma_group_fits(capacity, self.exponent@, newest as int);
            }
            // Every group lies inside an initialized bucket.
            let mask: u64 = matching_mask(backend, &tags[self.group..self.group + 16], tag);
            proof {
                math::lemma_low_ones((end - count) as u64);
                math::lemma_low_ones(end as u64);
            }
            let active: u64 = ((1u64 << end) - 1) ^ ((1u64 << (end - count)) - 1);
            let ghost group = self.group as int;
            let ghost old_matches = self.matches;
            self.matches = mask & active;
            proof {
                let chunk = tags@.subrange(group, group + 16);
                assert forall|i: int| 0 <= i < 64 implies (#[trigger] math::word_bit(self.matches, i)
                    <==> (end - count <= i < end && tags@[group + i] == tag)) by {
                    math::lemma_lane_range(mask, (end - count) as u64, end as u64, i);
                    if i < 16 {
                        assert(chunk[i] == tags@[group + i]);
                    }
                }
                assert forall|e: int| end - count <= e < end implies #[trigger] (group + e) % capacity
                    == (upper - end + e) % capacity && (math::word_bit(self.matches, e)
                    <==> tags@[(upper - end + e) % capacity] == tag) by {
                    math::lemma_mod_offset(upper - 1, e + 1 - end, capacity);
                    vstd::arithmetic::div_mod::lemma_small_mod((group + e) as nat, capacity as nat);
                }
                lemma_lanes_walk(
                    self.matches,
                    group,
                    capacity,
                    self.lower as int,
                    upper,
                    end as int,
                    count as int,
                    tags@,
                    tag,
                );
                assert forall|i: int| 0 <= i < 64 implies !#[trigger] math::word_bit(0u64, i) by {
                    math::lemma_empty_mask(i);
                }
                lemma_no_lanes(old_matches, 0, capacity, 32);
                lemma_no_lanes_any(old_matches, capacity, 32);
            }
        }
        if self.matches != 0 {
            let zeros: u32 = self.matches.leading_zeros();
            let ghost matches = self.matches;
            proof {
                vstd::std_specs::bits::axiom_u64_leading_zeros(matches);
                lemma_highest_lane(matches, zeros as u64);
            }
            let lane: usize = 63 - zeros as usize;
            self.matches = self.matches & !(1u64 << lane);
            proof {
                assert forall|i: int| 0 <= i < 64 implies #[trigger] math::word_bit(self.matches, i)
                    == (i != lane && math::word_bit(matches, i)) by {
                    math::lemma_clear_bit(matches, lane, i);
                }
                let group = self.group as int;
                lemma_skip_lanes(matches, group, capacity, lane + 1, 32);
                lemma_skip_lanes(self.matches, group, capacity, lane as int, 32);
                lemma_same_lanes(matches, self.matches, group, capacity, lane as int);
                assert(lane_slots(matches, group, capacity, lane + 1) == seq![(group + lane) % capacity]
                    + lane_slots(matches, group, capacity, lane as int));
                math::lemma_mask_is_mod(
                    (self.group + lane) as usize,
                    (self.slot_mask + 1) as usize,
                    self.exponent@,
                );
                assert(self.pending(tags@, tag, true) =~= before.drop_first());
            }
            return Some((self.group + lane) & self.slot_mask);
        }
        proof {
            assert forall|i: int| 0 <= i < 64 implies !#[trigger] math::word_bit(0u64, i) by {
                math::lemma_empty_mask(i);
            }
            lemma_no_lanes(self.matches, self.group as int, capacity, 32);
            assert(before =~= Seq::<int>::empty());
        }
        None
    }
}

/// Turning a lane by a count is turning it by the count's remainder.
proof fn lemma_turned(upper: int, e: int, capacity: int)
    requires
        capacity > 0,
        upper >= 0,
        0 <= e < capacity,
    ensures
        (e + upper % capacity) % capacity == (upper + e) % capacity,
{
    math::lemma_mod_offset(upper, e, capacity);
    vstd::arithmetic::div_mod::lemma_mod_bound(upper, capacity);
    math::lemma_mod_offset(e, upper % capacity, capacity);
    vstd::arithmetic::div_mod::lemma_small_mod(e as nat, capacity as nat);
}

/// A mask without a bit stands for no slot.
proof fn lemma_no_lanes(matches: u64, group: int, capacity: int, below: int)
    requires
        below <= 64,
        forall|i: int| 0 <= i < below ==> !#[trigger] math::word_bit(matches, i),
    ensures
        lane_slots(matches, group, capacity, below) == Seq::<int>::empty(),
    decreases below,
{
    if below > 0 {
        lemma_no_lanes(matches, group, capacity, below - 1);
    }
}

/// A mask without a bit stands for no slot, whatever its group.
proof fn lemma_no_lanes_any(matches: u64, capacity: int, below: int)
    requires
        below <= 64,
        forall|i: int| 0 <= i < below ==> !#[trigger] math::word_bit(matches, i),
    ensures
        forall|group: int|
            #[trigger] lane_slots(matches, group, capacity, below) == Seq::<int>::empty(),
{
    assert forall|group: int|
        #[trigger] lane_slots(matches, group, capacity, below) == Seq::<int>::empty() by {
        lemma_no_lanes(matches, group, capacity, below);
    }
}

/// Lanes without a bit add nothing.
proof fn lemma_skip_lanes(matches: u64, group: int, capacity: int, from: int, to: int)
    requires
        0 <= from <= to <= 64,
        forall|i: int| from <= i < to ==> !#[trigger] math::word_bit(matches, i),
    ensures
        lane_slots(matches, group, capacity, to) == lane_slots(matches, group, capacity, from),
    decreases to - from,
{
    if from < to {
        lemma_skip_lanes(matches, group, capacity, from, to - 1);
    }
}

/// The slots below a lane depend on the bits below it alone.
proof fn lemma_same_lanes(a: u64, b: u64, group: int, capacity: int, below: int)
    requires
        below <= 64,
        forall|i: int| 0 <= i < below ==> #[trigger] math::word_bit(a, i) == math::word_bit(b, i),
    ensures
        lane_slots(a, group, capacity, below) == lane_slots(b, group, capacity, below),
    decreases below,
{
    if below > 0 {
        assert(math::word_bit(a, below - 1) == math::word_bit(b, below - 1));
        lemma_same_lanes(a, b, group, capacity, below - 1);
    }
}

/// The highest set bit of a mask below 32 lanes.
proof fn lemma_highest_lane(matches: u64, zeros: u64)
    requires
        matches != 0,
        forall|i: int| 32 <= i < 64 ==> !#[trigger] math::word_bit(matches, i),
        zeros == vstd::std_specs::bits::u64_leading_zeros(matches),
    ensures
        32 <= zeros < 64,
        math::word_bit(matches, 63 - zeros),
        forall|i: int| 63 - zeros < i < 64 ==> !#[trigger] math::word_bit(matches, i),
{
    vstd::std_specs::bits::axiom_u64_leading_zeros(matches);
    let lane: u64 = (63 - zeros) as u64;
    math::lemma_bit_is_one_or_zero(matches >> lane);
    assert(math::word_bit(matches, lane as int));
    assert forall|i: int| 63 - zeros < i < 64 implies !#[trigger] math::word_bit(matches, i) by {
        let j: u64 = i as u64;
        assert((matches >> j) & 1u64 == 0u64);
    }
}

/// Lanes that mirror the newest `count` indices of a bucket walk them in order.
proof fn lemma_lanes_walk(
    matches: u64,
    group: int,
    capacity: int,
    lower: int,
    upper: int,
    end: int,
    count: int,
    tags: Seq<u8>,
    tag: u8,
)
    requires
        capacity > 0,
        0 <= count <= end <= 32,
        lower <= upper - count,
        forall|e: int|
            end - count <= e < end ==> #[trigger] ((group + e) % capacity) == (upper - end + e)
                % capacity,
        forall|e: int|
            end - count <= e < end ==> (#[trigger] math::word_bit(matches, e) <==> tags[(upper - end
                + e) % capacity] == tag),
        forall|e: int|
            0 <= e < 32 && !(end - count <= e < end) ==> !#[trigger] math::word_bit(matches, e),
    ensures
        lane_slots(matches, group, capacity, 32) + walk(
            lower,
            upper - count,
            capacity,
            tags,
            tag,
            true,
        ) == walk(lower, upper, capacity, tags, tag, true),
{
    lemma_skip_lanes(matches, group, capacity, end, 32);
    lemma_lanes_walk_below(
        matches,
        group,
        capacity,
        lower,
        upper,
        end,
        count,
        tags,
        tag,
        end,
    );
}

/// As [`lemma_lanes_walk`], for the lanes below `e`.
proof fn lemma_lanes_walk_below(
    matches: u64,
    group: int,
    capacity: int,
    lower: int,
    upper: int,
    end: int,
    count: int,
    tags: Seq<u8>,
    tag: u8,
    e: int,
)
    requires
        capacity > 0,
        0 <= count <= end <= 32,
        end - count <= e <= end,
        lower <= upper - count,
        forall|e: int|
            end - count <= e < end ==> #[trigger] ((group + e) % capacity) == (upper - end + e)
                % capacity,
        forall|e: int|
            end - count <= e < end ==> (#[trigger] math::word_bit(matches, e) <==> tags[(upper - end
                + e) % capacity] == tag),
        forall|e: int|
            0 <= e < 32 && !(end - count <= e < end) ==> !#[trigger] math::word_bit(matches, e),
    ensures
        lane_slots(matches, group, capacity, e) + walk(
            lower,
            upper - count,
            capacity,
            tags,
            tag,
            true,
        ) == walk(lower, upper - end + e, capacity, tags, tag, true),
    decreases e,
{
    let rest = walk(lower, upper - count, capacity, tags, tag, true);
    if e == end - count {
        lemma_no_lanes(matches, group, capacity, e);
        assert(Seq::<int>::empty() + rest =~= rest);
    } else {
        lemma_lanes_walk_below(
            matches,
            group,
            capacity,
            lower,
            upper,
            end,
            count,
            tags,
            tag,
            e - 1,
        );
        assert((group + (e - 1)) % capacity == (upper - end + (e - 1)) % capacity);
        let below = lane_slots(matches, group, capacity, e - 1);
        if math::word_bit(matches, e - 1) {
            assert((seq![(group + e - 1) % capacity] + below) + rest =~= seq![(group + e - 1)
                % capacity] + (below + rest));
        }
    }
}

} // verus!
