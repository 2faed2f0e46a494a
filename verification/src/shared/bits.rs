//! Least-significant-bit-first bit writer.
//!
//! Bits go into increasing byte addresses and, within a byte, from the least
//! significant bit upwards. Every write also clears the bits above the new
//! position in the byte it lands in, so no separate preparation is needed after
//! the first byte.
use vstd::prelude::*;

use crate::math;
use crate::shared::bytes;

verus! {

/// Largest number of bits a single [`BitWriter::write`] call accepts.
pub const MAX_BITS_PER_WRITE: u32 = 56;

/// Bytes a write touches, and therefore the headroom the buffer must keep.
pub const WRITE_SLACK: usize = 8;

/// Bit `i` of a byte string, counting from the least significant bit of its first byte.
pub open spec fn stream_bit(s: Seq<u8>, i: int) -> bool {
    math::byte_bit(s[i / 8], i % 8)
}

/// The word a write materialises: the partial byte with the field above it.
pub open spec fn merged_word(partial: u8, position: int, bits: u64) -> u64 {
    partial as u64 | (bits << ((position % 8) as u64))
}

/// What a write of `bits` at bit `position` leaves in a buffer with room for it.
pub open spec fn written(s: Seq<u8>, position: int, bits: u64) -> Seq<u8> {
    let start = position / 8;
    Seq::new(
        s.len(),
        |i: int|
            if start <= i < start + WRITE_SLACK {
                math::word_byte(merged_word(s[start], position, bits), i - start)
            } else {
                s[i]
            },
    )
}

/// The low bits of a byte.
pub open spec fn low_bits(byte: u8, count: int) -> u8 {
    byte & (((1u16 << (count as usize)) - 1) as u16 as u8)
}

/// What is left where everything from bit `position` on is dropped.
pub open spec fn rewound(s: Seq<u8>, position: int) -> Seq<u8> {
    if position / 8 < s.len() {
        s.update(position / 8, low_bits(s[position / 8], position % 8))
    } else {
        s
    }
}

/// Clears the byte at `index`, where there is one.
pub open spec fn zeroed(s: Seq<u8>, index: int) -> Seq<u8> {
    if index < s.len() {
        s.update(index, 0)
    } else {
        s
    }
}

/// Cursor into a caller-owned byte buffer that appends individual bits.
pub struct BitWriter<'a> {
    /// The buffer written into.
    pub storage: &'a mut [u8],
    /// The bit the next write lands on.
    pub position: usize,
    /// Whether a write was refused because the buffer was full.
    pub overflowed: bool,
}

impl<'a> BitWriter<'a> {
    /// Creates a writer that resumes at bit `position` of `storage`.
    ///
    /// The caller owns the invariant that `storage[position >> 3]` already
    /// holds the partially filled byte.
    pub fn new(storage: &'a mut [u8], position: usize) -> (w: Self)
        ensures
            w.position == position,
            !w.overflowed,
            w.storage@ == old(storage)@,
            final(w.storage)@ == final(storage)@,
    {
        BitWriter { storage, position, overflowed: false }
    }

    /// Returns the current bit position.
    pub fn position(&self) -> (p: usize)
        ensures
            p == self.position,
    {
        self.position
    }

    /// Returns `true` when a write was refused because the buffer was full.
    ///
    /// A writer that has overflowed keeps its position advancing so callers can
    /// still finish their control flow, but the produced bytes are meaningless
    /// and the encoder turns this into an error.
    pub fn overflowed(&self) -> (o: bool)
        ensures
            o == self.overflowed,
    {
        self.overflowed
    }

    /// Returns the byte at `index`, or zero when it lies past the buffer.
    pub fn byte(&self, index: usize) -> (b: u8)
        ensures
            b == if index < old(self.storage)@.len() {
                old(self.storage)@[index as int]
            } else {
                0
            },
    {
        if index < self.storage.len() {
            self.storage[index]
        } else {
            0
        }
    }

    /// Overwrites the byte at `index`, ignoring an index past the buffer.
    pub fn set_byte(&mut self, index: usize, value: u8)
        ensures
            final(self).position == old(self).position,
            final(final(self).storage)@ == final(old(self).storage)@,
            final(self).storage@ == if index < old(self).storage@.len() {
                old(self).storage@.update(index as int, value)
            } else {
                old(self).storage@
            },
            final(self).overflowed == (old(self).overflowed || index >= old(self).storage@.len()),
    {
        if index < self.storage.len() {
            self.storage[index] = value;
        } else {
            self.overflowed = true;
        }
    }

    /// Appends the `n_bits` low bits of `bits`.
    ///
    /// This materialises a whole machine word, which clears the bytes that
    /// follow the new position. Callers therefore provide [`WRITE_SLACK`] bytes
    /// of headroom past the largest position they will reach; without it the
    /// write sets the overflow flag and only moves the position.
    pub fn write(&mut self, n_bits: u32, bits: u64)
        requires
            n_bits <= MAX_BITS_PER_WRITE,
            bits >> (n_bits as u64) == 0,
            old(self).position + n_bits <= usize::MAX,
        ensures
            final(self).position == old(self).position + n_bits,
            final(final(self).storage)@ == final(old(self).storage)@,
            old(self).position / 8 + WRITE_SLACK <= old(self).storage@.len() ==> {
                &&& final(self).storage@ == written(
                    old(self).storage@,
                    old(self).position as int,
                    bits,
                )
                &&& final(self).overflowed == old(self).overflowed
            },
            old(self).position / 8 + WRITE_SLACK > old(self).storage@.len() ==> {
                &&& final(self).storage@ == old(self).storage@
                &&& final(self).overflowed
            },
    {
        proof {
            math::lemma_bit_position(self.position);
        }
        let start: usize = self.position >> 3;
        if self.storage.len() < WRITE_SLACK || start > self.storage.len() - WRITE_SLACK {
            self.overflowed = true;
            self.position = self.position + n_bits as usize;
            return;
        }
        let ghost before = self.storage@;
        let ghost at = self.position as int;
        let offset: usize = self.position & 7;
        let value: u64 = self.storage[start] as u64 | (bits << offset);
        assert(bits << offset == bits << ((at % 8) as u64));
        let mut k: usize = 0;
        while k < WRITE_SLACK
            invariant
                k <= WRITE_SLACK,
                start == at / 8,
                start + WRITE_SLACK <= before.len(),
                self.storage@.len() == before.len(),
                self.position == at,
                self.overflowed == old(self).overflowed,
                final(self.storage)@ == final(old(self).storage)@,
                value == merged_word(before[start as int], at, bits),
                forall|i: int|
                    0 <= i < before.len() ==> self.storage@[i] == if start <= i < start + k {
                        math::word_byte(value, i - start)
                    } else {
                        before[i]
                    },
            decreases WRITE_SLACK - k,
        {
            self.storage[start + k] = (value >> (8 * k)) as u8;
            k += 1;
        }
        assert(self.storage@ =~= written(before, at, bits));
        self.position = self.position + n_bits as usize;
    }

    /// Overwrites `n_bits` bits that were already emitted at `position`.
    ///
    /// Stops at the first byte past the buffer and sets the overflow flag there.
    pub fn update(&mut self, n_bits: u32, bits: u32, position: usize)
        requires
            position + n_bits <= usize::MAX,
        ensures
            final(self).position == old(self).position,
            final(final(self).storage)@ == final(old(self).storage)@,
            final(self).storage@.len() == old(self).storage@.len(),
            final(self).overflowed == (old(self).overflowed || (n_bits > 0 && position + n_bits > 8
                * old(self).storage@.len())),
            forall|i: int|
                0 <= i < 8 * old(self).storage@.len() ==> #[trigger] stream_bit(
                    final(self).storage@,
                    i,
                ) == if position <= i < position + n_bits {
                    i - position < 32 && math::word_bit(bits as u64, i - position)
                } else {
                    stream_bit(old(self).storage@, i)
                },
    {
        let ghost before = self.storage@;
        let mut left: u32 = n_bits;
        let mut field: u32 = bits;
        let mut at: usize = position;
        proof {
            assert forall|i: int| 32 <= i < 64 implies !#[trigger] math::word_bit(bits as u64, i) by {
                math::lemma_half_word(bits, i);
            }
        }
        while left > 0
            invariant
                at + left == position + n_bits,
                position <= at,
                position + n_bits <= usize::MAX,
                self.position == old(self).position,
                self.overflowed == old(self).overflowed,
                final(self.storage)@ == final(old(self).storage)@,
                before == old(self).storage@,
                self.storage@.len() == before.len(),
                at > position && left > 0 ==> at % 8 == 0,
                at > position ==> at <= 8 * before.len(),
                forall|i: int|
                    0 <= i < 8 * before.len() ==> #[trigger] stream_bit(self.storage@, i) == if position
                        <= i < at {
                        i - position < 32 && math::word_bit(bits as u64, i - position)
                    } else {
                        stream_bit(before, i)
                    },
                forall|i: int|
                    0 <= i < 32 ==> #[trigger] math::word_bit(field as u64, i) == (i + (at - position) < 32
                        && math::word_bit(bits as u64, i + (at - position))),
                forall|i: int| 32 <= i < 64 ==> !#[trigger] math::word_bit(field as u64, i),
            decreases left,
        {
            proof {
                math::lemma_bit_position(at);
            }
            let byte_position: usize = at >> 3;
            let unchanged: u32 = (at & 7) as u32;
            let changed: u32 = if left < 8 - unchanged {
                left
            } else {
                8 - unchanged
            };
            let total: u32 = unchanged + changed;
            if byte_position >= self.storage.len() {
                self.overflowed = true;
                return;
            }
            let ghost here = self.storage@;
            let byte: u8 = self.storage[byte_position];
            proof {
                math::lemma_shift_bounds(total, unchanged, changed);
            }
            let mask: u32 = !((1u32 << total) - 1) | ((1u32 << unchanged) - 1);
            let kept: u32 = byte as u32 & mask;
            let fresh: u32 = field & ((1u32 << changed) - 1);
            let patched: u8 = ((fresh << unchanged) | kept) as u8;
            self.storage[byte_position] = patched;
            let ghost next = (at + changed) as int;
            proof {
                assert forall|i: int| 0 <= i < 8 * before.len() implies #[trigger] stream_bit(
                    self.storage@,
                    i,
                ) == if position <= i < next {
                    i - position < 32 && math::word_bit(bits as u64, i - position)
                } else {
                    stream_bit(before, i)
                } by {
                    assert(stream_bit(here, i) == if position <= i < at {
                        i - position < 32 && math::word_bit(bits as u64, i - position)
                    } else {
                        stream_bit(before, i)
                    });
                    if i / 8 == byte_position {
                        math::lemma_patch_byte(byte, field, unchanged, total, i % 8);
                        if at <= i < next {
                            let j = i - at;
                            assert(math::word_bit(field as u64, j) == (j + (at - position) < 32
                                && math::word_bit(bits as u64, j + (at - position))));
                        }
                    }
                }
                assert forall|i: int| 0 <= i < 32 implies #[trigger] math::word_bit(
                    (field >> changed) as u64,
                    i,
                ) == (i + (next - position) < 32 && math::word_bit(bits as u64, i + (next - position))) by {
                    math::lemma_shift_field(field, changed, i);
                    if i + changed < 32 {
                        assert(math::word_bit(field as u64, i + changed) == (i + changed + (at - position)
                            < 32 && math::word_bit(bits as u64, i + changed + (at - position))));
                    }
                }
                assert forall|i: int| 32 <= i < 64 implies !#[trigger] math::word_bit(
                    (field >> changed) as u64,
                    i,
                ) by {
                    math::lemma_half_word((field >> changed), i);
                }
            }
            left = left - changed;
            field = field >> changed;
            at = at + changed as usize;
        }
    }

    /// Drops everything written after bit `position` and resumes there.
    pub fn rewind(&mut self, position: usize)
        ensures
            final(self).position == position,
            final(final(self).storage)@ == final(old(self).storage)@,
            final(self).overflowed == (old(self).overflowed || position / 8
                >= old(self).storage@.len()),
            final(self).storage@ == rewound(old(self).storage@, position as int),
            forall|i: int|
                0 <= i < old(self).storage@.len() && i != position / 8
                    ==> #[trigger] final(self).storage@[i] == old(self).storage@[i],
            forall|j: int|
                0 <= j < 8 && position / 8 < old(self).storage@.len() ==> #[trigger] math::byte_bit(
                    final(self).storage@[position as int / 8],
                    j,
                ) == (math::byte_bit(old(self).storage@[position as int / 8], j) && j < position % 8),
    {
        proof {
            math::lemma_bit_position(position);
        }
        let keep: usize = position & 7;
        proof {
            math::lemma_keep_mask(keep);
        }
        let mask: u16 = (1u16 << keep) - 1;
        let index: usize = position >> 3;
        if index < self.storage.len() {
            let byte: u8 = self.storage[index];
            self.storage[index] = byte & (mask as u8);
            assert(self.storage@ =~= rewound(old(self).storage@, position as int));
            proof {
                assert forall|j: int| 0 <= j < 8 implies #[trigger] math::byte_bit(
                    self.storage@[index as int],
                    j,
                ) == (math::byte_bit(byte, j) && j < keep) by {
                    math::lemma_low_bits(byte, keep, j);
                }
            }
        } else {
            self.overflowed = true;
        }
        self.position = position;
    }

    /// Advances to the next byte boundary, leaving the skipped bits zero.
    pub fn align(&mut self)
        requires
            old(self).position + 7 <= usize::MAX,
        ensures
            final(self).position % 8 == 0,
            old(self).position <= final(self).position < old(self).position + 8,
            final(self).overflowed == old(self).overflowed,
            final(self).storage@ == old(self).storage@,
            final(final(self).storage)@ == final(old(self).storage)@,
    {
        proof {
            math::lemma_bit_position((self.position + 7) as usize);
        }
        self.position = (self.position + 7) & !7;
    }

    /// Advances to the next byte boundary and clears the byte landed on.
    ///
    /// The caller reads that byte back as the partial byte carried into the
    /// next meta-block, so in a reused buffer it has to be cleared.
    pub fn jump_to_byte_boundary(&mut self)
        requires
            old(self).position + 7 <= usize::MAX,
        ensures
            final(self).position % 8 == 0,
            old(self).position <= final(self).position < old(self).position + 8,
            final(self).storage@ == zeroed(old(self).storage@, final(self).position as int / 8),
            final(self).overflowed == (old(self).overflowed || final(self).position / 8
                >= old(self).storage@.len()),
            final(final(self).storage)@ == final(old(self).storage)@,
    {
        self.align();
        self.prepare_storage();
    }

    /// Clears the byte at the current, byte-aligned position.
    pub fn prepare_storage(&mut self)
        requires
            old(self).position % 8 == 0,
        ensures
            final(self).position == old(self).position,
            final(self).storage@ == zeroed(old(self).storage@, old(self).position as int / 8),
            final(self).overflowed == (old(self).overflowed || old(self).position / 8
                >= old(self).storage@.len()),
            final(final(self).storage)@ == final(old(self).storage)@,
    {
        proof {
            math::lemma_bit_position(self.position);
        }
        let index: usize = self.position >> 3;
        if index < self.storage.len() {
            self.storage[index] = 0;
        } else {
            self.overflowed = true;
        }
    }

    /// Copies `data` verbatim at the current, byte-aligned position and clears the byte after it.
    pub fn write_bytes(&mut self, data: &[u8])
        requires
            old(self).position % 8 == 0,
            old(self).position + 8 * data@.len() <= usize::MAX,
        ensures
            final(self).position == old(self).position + 8 * data@.len(),
            final(final(self).storage)@ == final(old(self).storage)@,
            ({
                let start = old(self).position as int / 8;
                let end = start + data@.len();
                &&& end <= old(self).storage@.len() ==> final(self).storage@ == zeroed(
                    bytes::spliced(old(self).storage@, start, data@),
                    end,
                )
                &&& end > old(self).storage@.len() ==> final(self).storage@ == old(self).storage@
                &&& final(self).overflowed == (old(self).overflowed || end
                    >= old(self).storage@.len())
            }),
    {
        proof {
            math::lemma_bit_position(self.position);
        }
        let start: usize = self.position >> 3;
        if data.len() > self.storage.len() || start > self.storage.len() - data.len() {
            self.overflowed = true;
            self.position = self.position + data.len() * 8;
            return;
        }
        let ghost before = self.storage@;
        let ghost at = self.position;
        let mut k: usize = 0;
        while k < data.len()
            invariant
                k <= data@.len(),
                start + data@.len() <= before.len() <= usize::MAX,
                self.storage@.len() == before.len(),
                self.position == at,
                self.overflowed == old(self).overflowed,
                final(self.storage)@ == final(old(self).storage)@,
                forall|i: int|
                    0 <= i < before.len() ==> self.storage@[i] == if start <= i < start + k {
                        data@[i - start]
                    } else {
                        before[i]
                    },
            decreases data@.len() - k,
        {
            self.storage[start + k] = data[k];
            k += 1;
        }
        assert(self.storage@ =~= bytes::spliced(before, start as int, data@));
        self.position = self.position + data.len() * 8;
        let end: usize = start + data.len();
        if end < self.storage.len() {
            self.storage[end] = 0;
        } else {
            self.overflowed = true;
        }
    }
}

/// A write at a clean partial byte puts exactly its field into the stream: the
/// bits before the position stay, the field reads back, and the rest of the
/// word is zero.
pub proof fn lemma_write_reads_back(s: Seq<u8>, position: int, n_bits: u32, bits: u64, i: int)
    requires
        0 <= position,
        position / 8 + WRITE_SLACK <= s.len(),
        n_bits <= MAX_BITS_PER_WRITE,
        bits >> (n_bits as u64) == 0,
        (s[position / 8] as u64) >> ((position % 8) as u64) == 0,
        0 <= i < 8 * s.len(),
    ensures
        i < position ==> stream_bit(written(s, position, bits), i) == stream_bit(s, i),
        position <= i < position + n_bits ==> stream_bit(written(s, position, bits), i)
            == math::word_bit(bits, i - position),
        position + n_bits <= i < 8 * (position / 8 + WRITE_SLACK) ==> !stream_bit(
            written(s, position, bits),
            i,
        ),
        8 * (position / 8 + WRITE_SLACK) <= i ==> stream_bit(written(s, position, bits), i)
            == stream_bit(s, i),
{
    let start = position / 8;
    let off = (position % 8) as u64;
    let w = merged_word(s[start], position, bits);
    if start <= i / 8 < start + WRITE_SLACK {
        let j = i - 8 * start;
        math::lemma_word_byte_bit(w, j);
        assert(j / 8 == i / 8 - start && j % 8 == i % 8);
        math::lemma_merge_bits(s[start], bits, off, j);
        if position + n_bits <= i {
            math::lemma_narrow_field(bits, n_bits as u64, i - position);
        }
    }
}

/// A write at a clean partial byte leaves a clean partial byte behind.
pub proof fn lemma_write_stays_clean(s: Seq<u8>, position: int, n_bits: u32, bits: u64)
    requires
        0 <= position,
        position / 8 + WRITE_SLACK <= s.len(),
        n_bits <= MAX_BITS_PER_WRITE,
        bits >> (n_bits as u64) == 0,
        (s[position / 8] as u64) >> ((position % 8) as u64) == 0,
    ensures
        (written(s, position, bits)[(position + n_bits) / 8] as u64) >> (((position + n_bits)
            % 8) as u64) == 0,
{
    let end = position + n_bits;
    let b = written(s, position, bits)[end / 8];
    assert forall|j: int| end % 8 <= j < 8 implies !#[trigger] math::byte_bit(b, j) by {
        let i = 8 * (end / 8) + j;
        lemma_write_reads_back(s, position, n_bits, bits, i);
        assert(i / 8 == end / 8 && i % 8 == j);
    }
    math::lemma_high_bits_clear(b, end % 8);
}

} // verus!
