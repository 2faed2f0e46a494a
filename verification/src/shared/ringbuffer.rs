//! Sliding window over the input.
//!
//! The layout matters for the emitted bytes, not just for correctness. Match
//! finding reads whole words past the current position, and those bytes are
//! defined: a copy of the start of the window in the tail, zeros in the
//! seven-byte margin, and a sentinel at the first tail byte until a lap writes
//! over it.
use vstd::arithmetic::div_mod;
use vstd::arithmetic::power2;
use vstd::prelude::*;

use crate::math;
use crate::shared::bytes;
use crate::shared::bytes::{clear_range, copy_at};
use crate::shared::capacity;
use crate::shared::capacity::held_by;

verus! {

/// Bytes of margin past the window, so eight-byte loads always have data.
pub const SLACK_FOR_EIGHT_BYTE_HASHING: usize = 7;

/// Bytes reserved before the window for the two wrap-around copies.
pub const HEAD_ROOM: usize = 2;

/// Sentinel at the first tail byte.
pub const TAIL_SENTINEL: u8 = 241;

/// Positions keep their low 31 bits; the top bit remembers that a lap went by.
pub const LAP: u32 = 0x8000_0000;

/// The window a search runs over.
#[derive(Copy, Clone)]
pub struct Window<'a> {
    /// The ring buffer holding the input seen so far.
    pub data: &'a [u8],
    /// Mask that turns an absolute position into a buffer index.
    pub mask: usize,
}

/// The stretch of input one call processes.
#[derive(Copy, Clone, Debug, PartialEq, Eq, Structural)]
pub struct BlockSpan {
    /// Wrapped position the stretch starts at.
    pub position: u32,
    /// Number of bytes in the stretch.
    pub bytes: u32,
}

/// Circular window holding the input the encoder can still refer back to.
pub struct RingBuffer {
    /// Bytes in the window.
    pub size: usize,
    /// `size - 1`.
    pub mask: usize,
    /// Bytes mirrored past the window.
    pub tail_size: usize,
    /// Window and mirror together.
    pub total_size: usize,
    /// Bytes allocated so far, or zero.
    pub cur_size: usize,
    /// Where the next byte goes, with the lap bit.
    pub pos: u32,
    /// Head room, window, mirror and margin.
    pub data: Vec<u8>,
    /// Exponent of `size`.
    pub bits: Ghost<nat>,
    /// Every byte written since the last reset.
    pub history: Ghost<Seq<u8>>,
    /// Bytes a short first write put in without mirroring them.
    pub unmirrored: Ghost<int>,
    /// Up to here first-lap bytes of the mirror were cleared with the margin.
    pub torn: Ghost<int>,
}

/// The stored form of an input position: its low 31 bits and the lap bit.
pub open spec fn lap_position(n: int) -> int {
    n % 0x8000_0000 + if n >= 0x8000_0000 {
        0x8000_0000int
    } else {
        0
    }
}

impl RingBuffer {
    /// The shape the constructor fixed.
    pub open spec fn shaped(&self) -> bool {
        &&& 1 <= self.bits@ <= 31
        &&& self.bits@ < usize::BITS
        &&& self.size == power2::pow2(self.bits@)
        &&& self.size >= 2
        &&& self.mask == self.size - 1
        &&& 1 <= self.tail_size
        &&& 2 * self.tail_size <= self.size
        &&& self.total_size == self.size + self.tail_size
        &&& self.total_size + HEAD_ROOM + SLACK_FOR_EIGHT_BYTE_HASHING <= usize::MAX
    }

    /// The byte stored for window index `i`.
    pub open spec fn at(&self, i: int) -> u8 {
        self.data@[HEAD_ROOM + i]
    }

    /// The window holds the newest `size` bytes of the history, each at its
    /// masked position; the mirror repeats those that fall into it; the head
    /// room repeats the last two window bytes.
    pub open spec fn wf(&self) -> bool {
        let n = self.history@.len() as int;
        &&& self.shaped()
        &&& self.pos == lap_position(n)
        &&& 0 <= self.unmirrored@ <= n
        &&& self.unmirrored@ < self.tail_size
        &&& (self.cur_size == 0 ==> n == 0)
        &&& (0 < self.cur_size < self.total_size ==> {
            &&& n == self.cur_size
            &&& n == self.unmirrored@
            &&& self.data@.len() == HEAD_ROOM + n + SLACK_FOR_EIGHT_BYTE_HASHING
            &&& self.data@[0] == 0
            &&& self.data@[1] == 0
            &&& forall|i: int| n <= i < n + SLACK_FOR_EIGHT_BYTE_HASHING ==> #[trigger] self.at(i) == 0
        })
        &&& self.cur_size <= self.total_size
        &&& (self.cur_size == self.total_size ==> {
            &&& self.data@.len() == HEAD_ROOM + self.total_size + SLACK_FOR_EIGHT_BYTE_HASHING
            &&& self.data@[0] == self.at(self.size - 2)
            &&& self.data@[1] == self.at(self.size - 1)
            &&& (n <= self.size && self.unmirrored@ > 0 && self.torn@ <= self.size ==> self.at(
                self.size as int,
            ) == TAIL_SENTINEL)
            &&& (n <= self.size - 1 ==> self.at(self.size - 1) == 0)
            &&& (n <= self.size - 2 ==> self.at(self.size - 2) == 0)
            &&& forall|p: int|
                #![trigger self.history@[p]]
                self.unmirrored@ <= p < n && n - self.size <= p && p % (self.size as int)
                    < self.tail_size && (p >= self.size || self.size + p >= self.torn@) ==> self.at(self.size + p % (self.size as int))
                    == self.history@[p]
        })
        &&& forall|p: int|
            #![trigger self.history@[p]]
            0 <= p < n && n - self.size <= p ==> self.at(p % (self.size as int)) == self.history@[p]
    }

    /// Creates an empty window of `1 << rb_bits` bytes.
    ///
    /// `lgblock` sizes the tail: the copy of the window head that lets a match
    /// finder read a whole word past the wrap point without a branch.
    pub fn new(rb_bits: usize, lgblock: usize) -> (rb: Self)
        requires
            lgblock < rb_bits <= 31,
            rb_bits < usize::BITS,
            power2::pow2(rb_bits as nat) + power2::pow2(lgblock as nat) + HEAD_ROOM + SLACK_FOR_EIGHT_BYTE_HASHING
                <= usize::MAX,
        ensures
            rb.wf(),
            rb.size == power2::pow2(rb_bits as nat),
            rb.tail_size == power2::pow2(lgblock as nat),
            rb.cur_size == 0,
            rb.history@ == Seq::<u8>::empty(),
            rb.data@ == Seq::<u8>::empty(),
    {
        proof {
            math::lemma_one_shl(rb_bits);
            math::lemma_one_shl(lgblock);
            power2::lemma_pow2_unfold(rb_bits as nat);
            power2::lemma_pow2_pos(lgblock as nat);
            if lgblock < rb_bits - 1 {
                power2::lemma_pow2_strictly_increases(
                    lgblock as nat,
                    (rb_bits - 1) as nat,
                );
            }
        }
        let size: usize = 1usize << rb_bits;
        let tail_size: usize = 1usize << lgblock;
        RingBuffer {
            size,
            mask: size - 1,
            tail_size,
            total_size: size + tail_size,
            cur_size: 0,
            pos: 0,
            data: Vec::new(),
            bits: Ghost(rb_bits as nat),
            history: Ghost(Seq::empty()),
            unmirrored: Ghost(0),
            torn: Ghost(0),
        }
    }

    /// Returns the mask that turns an absolute position into a buffer index.
    pub fn mask(&self) -> (m: usize)
        ensures
            m == self.mask,
    {
        self.mask
    }

    /// Returns the window contents, indexed by masked position.
    ///
    /// The slice is longer than the window: it also holds the tail copy and the
    /// margin, so a caller may read a whole word starting at any valid index.
    pub fn buffer(&self) -> (b: &[u8])
        ensures
            b@ == if self.data@.len() >= HEAD_ROOM {
                self.data@.skip(HEAD_ROOM as int)
            } else {
                Seq::<u8>::empty()
            },
    {
        let all: &[u8] = self.data.as_slice();
        if all.len() >= HEAD_ROOM {
            &all[HEAD_ROOM..all.len()]
        } else {
            &all[all.len()..all.len()]
        }
    }

    /// Returns how many bytes the window holds on to.
    pub fn retained_bytes(&self) -> (bytes: usize)
        ensures
            capacity::covers(bytes, self.data@.len() as int),
    {
        held_by(&self.data, 1)
    }

    /// Returns whether any input has been written yet.
    pub fn is_allocated(&self) -> (b: bool)
        ensures
            b == (self.cur_size != 0),
    {
        self.cur_size != 0
    }

    /// Restores the window to the state its constructor left it in.
    ///
    /// The bytes are left where they are rather than wiped. Nothing can read
    /// them: a backward reference is bounded by the distance to the start of
    /// the stream, and the next write re-establishes head, mirror and sentinel.
    pub fn reset(&mut self)
        requires
            old(self).shaped(),
        ensures
            final(self).wf(),
            final(self).cur_size == 0,
            final(self).history@ == Seq::<u8>::empty(),
            final(self).size == old(self).size,
            final(self).tail_size == old(self).tail_size,
            final(self).data@ == old(self).data@,
    {
        self.cur_size = 0;
        self.pos = 0;
        self.history = Ghost(Seq::empty());
        self.unmirrored = Ghost(0);
        self.torn = Ghost(0);
    }

    /// Grows the backing storage to `buflen` bytes, keeping what was written.
    fn init_buffer(&mut self, buflen: usize)
        requires
            old(self).shaped(),
            buflen <= old(self).total_size,
            old(self).cur_size <= buflen,
            old(self).cur_size > 0 ==> old(self).data@.len() == HEAD_ROOM + old(self).cur_size
                + SLACK_FOR_EIGHT_BYTE_HASHING,
        ensures
            final(self).shaped(),
            final(self).size == old(self).size,
            final(self).tail_size == old(self).tail_size,
            final(self).total_size == old(self).total_size,
            final(self).mask == old(self).mask,
            final(self).bits@ == old(self).bits@,
            final(self).pos == old(self).pos,
            final(self).history@ == old(self).history@,
            final(self).unmirrored@ == old(self).unmirrored@,
            final(self).torn@ == old(self).torn@,
            final(self).cur_size == buflen,
            final(self).data@.len() == HEAD_ROOM + buflen + SLACK_FOR_EIGHT_BYTE_HASHING,
            final(self).data@[0] == 0,
            final(self).data@[1] == 0,
            forall|i: int|
                0 <= i < old(self).cur_size ==> #[trigger] final(self).at(i) == old(self).at(i),
            forall|i: int|
                buflen <= i < buflen + SLACK_FOR_EIGHT_BYTE_HASHING ==> #[trigger] final(self).at(i)
                    == 0,
    {
        let mut fresh: Vec<u8> = vec![0u8; HEAD_ROOM + buflen + SLACK_FOR_EIGHT_BYTE_HASHING];
        let keep: usize = HEAD_ROOM + self.cur_size + SLACK_FOR_EIGHT_BYTE_HASHING;
        if keep <= self.data.len() {
            copy_at(&mut fresh, 0, &self.data.as_slice()[0..keep]);
        }
        self.data = fresh;
        self.cur_size = buflen;
        let end: usize = self.data.len();
        clear_range(&mut self.data, HEAD_ROOM + buflen, end);
        self.data.set(0, 0);
        self.data.set(1, 0);
    }

    /// Writes the `index`-th byte of the window.
    fn set(&mut self, index: usize, value: u8)
        requires
            HEAD_ROOM + index < old(self).data.len(),
        ensures
            *final(self) == (RingBuffer { data: final(self).data, ..*old(self) }),
            final(self).data@ == old(self).data@.update(HEAD_ROOM + index, value),
    {
        self.data.set(HEAD_ROOM + index, value);
    }

    /// Copies the head of `bytes` into the tail mirror.
    fn write_tail(&mut self, bytes: &[u8])
        requires
            old(self).shaped(),
            old(self).data@.len() == HEAD_ROOM + old(self).total_size
                + SLACK_FOR_EIGHT_BYTE_HASHING,
        ensures
            *final(self) == (RingBuffer { data: final(self).data, ..*old(self) }),
            final(self).data@ == tail_written(
                old(self).data@,
                old(self).size as int,
                old(self).tail_size as int,
                old(self).pos as int % (old(self).size as int),
                bytes@,
            ),
    {
        proof {
            math::lemma_mask_is_mod(self.pos as usize, self.size, self.bits@);
        }
        let masked_pos: usize = (self.pos as usize) & self.mask;
        if masked_pos >= self.tail_size {
            return;
        }
        let room: usize = self.tail_size - masked_pos;
        let count: usize = if bytes.len() < room {
            bytes.len()
        } else {
            room
        };
        copy_at(&mut self.data, HEAD_ROOM + self.size + masked_pos, &bytes[0..count]);
        assert(bytes@.subrange(0, count as int) == bytes@.take(count as int));
    }

    /// Keeps the bytes of a short first write and nothing else.
    fn write_short(&mut self, bytes: &[u8])
        requires
            old(self).wf(),
            old(self).pos == 0,
            bytes@.len() < old(self).tail_size,
            bytes@.len() < 0x8000_0000,
        ensures
            final(self).wf(),
            final(self).history@ == old(self).history@ + bytes@,
            final(self).size == old(self).size,
            final(self).tail_size == old(self).tail_size,
            final(self).cur_size == bytes@.len(),
    {
        let ghost hist = self.history@ + bytes@;
        self.pos = bytes.len() as u32;
        self.cur_size = 0;
        self.init_buffer(bytes.len());
        let ghost cleared = *self;
        copy_at(&mut self.data, HEAD_ROOM, bytes);
        self.history = Ghost(hist);
        self.unmirrored = Ghost(hist.len() as int);
        proof {
            assert(hist =~= bytes@);
            assert forall|i: int|
                bytes@.len() <= i < bytes@.len() + SLACK_FOR_EIGHT_BYTE_HASHING implies #[trigger] self.at(i)
                == 0 by {
                assert(cleared.at(i) == 0);
            }
            assert forall|p: int|
                #![trigger hist[p]]
                0 <= p < hist.len() && hist.len() - self.size <= p implies self.at(p % (
            self.size as int)) == hist[p] by {
                div_mod::lemma_small_mod(p as nat, self.size as nat);
            }
        }
    }

    /// Allocates the whole window and its tail, keeping what a short first write left.
    fn allocate_whole(&mut self)
        requires
            old(self).wf(),
            old(self).cur_size < old(self).total_size,
        ensures
            final(self).wf(),
            *final(self) == (RingBuffer {
                data: final(self).data,
                cur_size: final(self).total_size,
                ..*old(self)
            }),
            final(self).cur_size == final(self).total_size,
    {
        let total: usize = self.total_size;
        let size: usize = self.size;
        self.init_buffer(total);
        let ghost grown = *self;
        self.set(size - 2, 0);
        self.set(size - 1, 0);
        self.set(size, TAIL_SENTINEL);
        let ghost n = self.history@.len() as int;
        proof {
            assert(n == old(self).cur_size || n == 0);
            assert forall|p: int|
                #![trigger self.history@[p]]
                0 <= p < n && n - self.size <= p implies self.at(p % (self.size as int))
                == self.history@[p] by {
                div_mod::lemma_small_mod(p as nat, self.size as nat);
                assert(old(self).at(p % (old(self).size as int)) == old(self).history@[p]);
                assert(grown.at(p) == old(self).at(p));
            }
        }
    }

    /// Appends `bytes` to the window.
    ///
    /// A first write shorter than the tail keeps only the bytes themselves: the
    /// tail and the rest of the window are never read.
    pub fn write(&mut self, bytes: &[u8])
        requires
            old(self).wf(),
            bytes@.len() <= old(self).size,
            bytes@.len() < 0x8000_0000,
        ensures
            final(self).wf(),
            final(self).history@ == old(self).history@ + bytes@,
            final(self).size == old(self).size,
            final(self).tail_size == old(self).tail_size,
            final(self).cur_size == if old(self).history@.len() == 0 && bytes@.len()
                < old(self).tail_size {
                bytes@.len()
            } else {
                old(self).total_size as nat
            },
    {
        if self.pos == 0 && bytes.len() < self.tail_size {
            self.write_short(bytes);
            return;
        }
        if self.cur_size < self.total_size {
            self.allocate_whole();
        }
        self.write_whole(bytes);
    }

    /// Appends `bytes` to a window that is allocated whole.
    #[verifier::rlimit(40)]
    fn write_whole(&mut self, bytes: &[u8])
        requires
            old(self).wf(),
            old(self).cur_size == old(self).total_size,
            bytes@.len() <= old(self).size,
            bytes@.len() < 0x8000_0000,
        ensures
            final(self).wf(),
            final(self).history@ == old(self).history@ + bytes@,
            final(self).size == old(self).size,
            final(self).tail_size == old(self).tail_size,
            final(self).cur_size == old(self).cur_size,
    {
        let ghost n = self.history@.len() as int;
        let ghost hist = self.history@ + bytes@;
        let ghost d0 = self.data@;
        let ghost size = self.size as int;
        let ghost tail = self.tail_size as int;
        let ghost m = n % size;
        proof {
            lemma_size_divides_lap(n, size, self.bits@);
            math::lemma_mask_is_mod(self.pos as usize, self.size, self.bits@);
        }
        let masked_pos: usize = (self.pos as usize) & self.mask;
        self.write_tail(bytes);
        if bytes.len() <= self.size - masked_pos {
            copy_at(&mut self.data, HEAD_ROOM + masked_pos, bytes);
        } else {
            let room: usize = self.total_size - masked_pos;
            let head: usize = if room < bytes.len() {
                room
            } else {
                bytes.len()
            };
            copy_at(&mut self.data, HEAD_ROOM + masked_pos, &bytes[0..head]);
            let wrapped: usize = self.size - masked_pos;
            copy_at(&mut self.data, HEAD_ROOM, &bytes[wrapped..bytes.len()]);
            assert(bytes@.subrange(0, head as int) == bytes@.take(head as int));
            assert(bytes@.subrange(wrapped as int, bytes@.len() as int) == bytes@.skip(
                wrapped as int,
            ));
        }
        let ghost d1 = self.data@;
        assert(d1 == ring_written(d0, size, tail, m, bytes@));
        let not_first_lap: bool = self.pos >= LAP;
        let low: u32 = if not_first_lap {
            self.pos - LAP
        } else {
            self.pos
        };
        let last_but_one: u8 = self.data[HEAD_ROOM + self.size - 2];
        let last: u8 = self.data[HEAD_ROOM + self.size - 1];
        self.data.set(0, last_but_one);
        self.data.set(1, last);
        let moved: u32 = low + bytes.len() as u32;
        self.pos = if not_first_lap && moved < LAP {
            moved + LAP
        } else {
            moved
        };
        self.history = Ghost(hist);
        proof {
            lemma_lap_step(n, bytes@.len() as int);
            assert forall|p: int|
                #![trigger hist[p]]
                0 <= p < hist.len() && hist.len() - size <= p implies self.at(p % size) == hist[p] by {
                if p < n {
                    assert(old(self).at(p % size) == old(self).history@[p]);
                }
                lemma_ring_holds(d0, size, tail, n, old(self).history@, bytes@, p);
            }
            assert forall|p: int|
                #![trigger hist[p]]
                self.unmirrored@ <= p < hist.len() && hist.len() - size <= p && p % size < tail && (p
                    >= size || size + p >= self.torn@) implies self.at(size + p % size) == hist[p] by {
                if p < n {
                    assert(old(self).at(size + p % size) == old(self).history@[p]);
                }
                lemma_ring_mirrors(d0, size, tail, n, old(self).history@, bytes@, p);
                div_mod::lemma_mod_bound(p, size);
            }
            if hist.len() <= size && self.unmirrored@ > 0 && n < size {
                div_mod::lemma_small_mod(n as nat, size as nat);
            }
        }
    }

    /// Clears the seven bytes that follow the written data on the first lap.
    ///
    /// Hashing loads whole words, so without this the hash of the last few
    /// positions would depend on bytes that were never written.
    pub fn clear_margin(&mut self)
        requires
            old(self).wf(),
        ensures
            final(self).wf(),
            *final(self) == (RingBuffer {
                data: final(self).data,
                torn: final(self).torn,
                ..*old(self)
            }),
            final(self).data@.len() == old(self).data@.len(),
            forall|i: int|
                0 <= i < old(self).data@.len() ==> #[trigger] final(self).data@[i] == if old(self).pos
                    <= old(self).mask && HEAD_ROOM + old(self).pos <= i < HEAD_ROOM + old(self).pos
                    + SLACK_FOR_EIGHT_BYTE_HASHING {
                    0
                } else {
                    old(self).data@[i]
                },
    {
        if self.pos as usize > self.mask {
            return;
        }
        let start: usize = HEAD_ROOM + self.pos as usize;
        let past: usize = start + SLACK_FOR_EIGHT_BYTE_HASHING;
        let end: usize = if past < self.data.len() {
            past
        } else {
            self.data.len()
        };
        let ghost n = self.history@.len() as int;
        if start <= end {
            clear_range(&mut self.data, start, end);
        }
        self.torn = Ghost(
            if self.torn@ < n + SLACK_FOR_EIGHT_BYTE_HASHING {
                n + SLACK_FOR_EIGHT_BYTE_HASHING
            } else {
                self.torn@
            },
        );
        proof {
            power2::lemma2_to64();
            if self.bits@ < 31 {
                power2::lemma_pow2_strictly_increases(self.bits@, 31);
            }
            assert(n == self.pos);
            assert forall|p: int|
                #![trigger self.history@[p]]
                0 <= p < n && n - self.size <= p implies self.at(p % (self.size as int))
                == self.history@[p] by {
                div_mod::lemma_small_mod(p as nat, self.size as nat);
                assert(old(self).at(p % (old(self).size as int)) == old(self).history@[p]);
            }
            assert forall|p: int|
                #![trigger self.history@[p]]
                self.cur_size == self.total_size && self.unmirrored@ <= p < n && n - self.size <= p
                    && p % (self.size as int) < self.tail_size && (p >= self.size || self.size + p
                    >= self.torn@) implies self.at(self.size + p % (self.size as int))
                == self.history@[p] by {
                div_mod::lemma_small_mod(p as nat, self.size as nat);
                assert(old(self).at(old(self).size + p % (old(self).size as int))
                    == old(self).history@[p]);
            }
        }
    }
}

/// The 32-bit form of an input position: the first three gibibytes as they are,
/// then alternating between two gibibyte-wide halves, so that a position past the
/// first lap stays recognisable.
pub open spec fn wrapped_position(position: int) -> int {
    if position < 0xC000_0000 {
        position
    } else {
        0x4000_0000 * (1 + (position / 0x4000_0000 - 1) % 2) + position % 0x4000_0000
    }
}

/// Wraps a 64-bit input position into the 32-bit space positions are stored in.
pub fn wrap_position(position: u64) -> (wrapped: u32)
    ensures
        wrapped == wrapped_position(position as int),
        position >= 0x4000_0000 ==> wrapped >= 0x4000_0000,
{
    let gb: u64 = position / 0x4000_0000;
    if gb > 2 {
        (0x4000_0000 * (1 + (gb - 1) % 2) + position % 0x4000_0000) as u32
    } else {
        position as u32
    }
}

/// Positions less than a gibibyte apart wrap to the same distance apart, or the
/// later one starts its half over.
pub proof fn lemma_wrap_step(position: int, step: int)
    requires
        0 <= position,
        0 <= step <= 0x4000_0000,
    ensures
        wrapped_position(position + step) == wrapped_position(position) + step || wrapped_position(
            position + step,
        ) == wrapped_position(position) + step - 0x8000_0000,
{
    let gb = position / 0x4000_0000;
    let later = (position + step) / 0x4000_0000;
    assert(later == gb || later == gb + 1);
    assert(position == 0x4000_0000 * gb + position % 0x4000_0000);
    assert(position + step == 0x4000_0000 * later + (position + step) % 0x4000_0000);
}

/// The storage after the head of `bytes` went into the tail mirror.
pub open spec fn tail_written(d: Seq<u8>, size: int, tail: int, m: int, bytes: Seq<u8>) -> Seq<u8> {
    if m < tail {
        bytes::spliced(
            d,
            HEAD_ROOM + size + m,
            bytes.take(if bytes.len() < tail - m {
                bytes.len() as int
            } else {
                tail - m
            }),
        )
    } else {
        d
    }
}

/// The storage after `bytes` went in at masked position `m`, before the head room is refreshed.
pub open spec fn ring_written(d: Seq<u8>, size: int, tail: int, m: int, bytes: Seq<u8>) -> Seq<u8> {
    let t = tail_written(d, size, tail, m, bytes);
    if bytes.len() <= size - m {
        bytes::spliced(t, HEAD_ROOM + m, bytes)
    } else {
        let room = size + tail - m;
        let head = if room < bytes.len() {
            room
        } else {
            bytes.len() as int
        };
        bytes::spliced(
            bytes::spliced(t, HEAD_ROOM + m, bytes.take(head)),
            HEAD_ROOM as int,
            bytes.skip(size - m),
        )
    }
}

/// A window of up to two gibibytes divides the lap, so masking the stored
/// position is masking the input position.
proof fn lemma_size_divides_lap(n: int, size: int, k: nat)
    requires
        0 <= n,
        1 <= k <= 31,
        size == power2::pow2(k),
    ensures
        lap_position(n) % size == n % size,
        0 <= lap_position(n) <= u32::MAX,
{
    power2::lemma_pow2_adds(k, (31 - k) as nat);
    power2::lemma_pow2_pos(k);
    power2::lemma_pow2_pos((31 - k) as nat);
    power2::lemma2_to64();
    let f = power2::pow2((31 - k) as nat) as int;
    assert(0x8000_0000 == size * f);
    div_mod::lemma_mod_mod(n, size, f);
    div_mod::lemma_mod_multiples_vanish(f, n % 0x8000_0000, size);
    assert(lap_position(n) % size == n % 0x8000_0000 % size);
}

/// Adding to a stored position is adding to the input position.
proof fn lemma_lap_step(n: int, k: int)
    requires
        0 <= n,
        0 <= k < 0x8000_0000,
    ensures
        lap_position(n + k) == ({
            let low = n % 0x8000_0000;
            if n >= 0x8000_0000 && low + k < 0x8000_0000 {
                low + k + 0x8000_0000
            } else {
                low + k
            }
        }),
{
}

/// After a write the window holds every one of the newest `size` bytes.
proof fn lemma_ring_holds(
    d: Seq<u8>,
    size: int,
    tail: int,
    n: int,
    history: Seq<u8>,
    bytes: Seq<u8>,
    p: int,
)
    requires
        0 < tail <= size,
        d.len() == HEAD_ROOM + size + tail + SLACK_FOR_EIGHT_BYTE_HASHING,
        n == history.len(),
        bytes.len() <= size,
        0 <= p < n + bytes.len(),
        n + bytes.len() - size <= p,
        p < n ==> d[HEAD_ROOM + p % size] == history[p],
    ensures
        0 <= p % size < size,
        ring_written(d, size, tail, n % size, bytes)[HEAD_ROOM + p % size] == (history + bytes)[p],
{
    math::lemma_mod_offset(n, p - n, size);
}

/// After a write the tail mirrors every one of the newest `size` bytes that fall into it.
proof fn lemma_ring_mirrors(
    d: Seq<u8>,
    size: int,
    tail: int,
    n: int,
    history: Seq<u8>,
    bytes: Seq<u8>,
    p: int,
)
    requires
        0 < tail <= size,
        d.len() == HEAD_ROOM + size + tail + SLACK_FOR_EIGHT_BYTE_HASHING,
        n == history.len(),
        bytes.len() <= size,
        0 <= p < n + bytes.len(),
        n + bytes.len() - size <= p,
        p % size < tail,
        p < n ==> d[HEAD_ROOM + size + p % size] == history[p],
    ensures
        ring_written(d, size, tail, n % size, bytes)[HEAD_ROOM + size + p % size] == (history
            + bytes)[p],
{
    math::lemma_mod_offset(n, p - n, size);
}

} // verus!
