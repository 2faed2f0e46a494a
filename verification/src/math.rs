//! Facts about bit operations that the rest of the crate reasons with.
use vstd::arithmetic::div_mod;
use vstd::arithmetic::power2;
use vstd::bits;
use vstd::prelude::*;

verus! {

/// Splitting a bit position into a byte index and an offset is division by eight.
pub proof fn lemma_bit_position(p: usize)
    ensures
        p >> 3 == p / 8,
        p & 7 == p % 8,
        p & !7 == p - p % 8,
{
    assert(p >> 3 == p / 8) by (bit_vector);
    assert(p & 7 == p % 8 && p & !7 == p - p % 8) by (bit_vector);
}

/// Masking with a power of two less one is the remainder.
pub proof fn lemma_mask_is_mod(x: usize, size: usize, k: nat)
    requires
        k < usize::BITS,
        size == power2::pow2(k),
    ensures
        size > 0,
        x & ((size - 1) as usize) == x % size,
        x & ((size - 1) as usize) < size,
        x & ((size - 1) as usize) <= x,
{
    power2::lemma_pow2_pos(k);
    div_mod::lemma_mod_decreases(x as nat, size as nat);
    bits::lemma_usize_low_bits_mask_is_mod(x, k);
    assert(bits::low_bits_mask(k) == power2::pow2(k) - 1);
}

/// A shifted one is a power of two.
pub proof fn lemma_one_shl(k: usize)
    requires
        k < usize::BITS,
    ensures
        1usize << k == power2::pow2(k as nat),
        power2::pow2(k as nat) <= usize::MAX,
{
    bits::lemma_usize_pow2_no_overflow(k as nat);
    bits::lemma_usize_shl_is_mul(1usize, k);
}

/// Moving a position by less than a lap moves its remainder, wrapping at most once.
pub proof fn lemma_mod_offset(n: int, k: int, size: int)
    requires
        size > 0,
        -size <= k <= size,
    ensures
        0 <= n % size < size,
        (n + k) % size == if n % size + k < 0 {
            n % size + k + size
        } else if n % size + k < size {
            n % size + k
        } else {
            n % size + k - size
        },
{
    let m = n % size;
    let q = n / size;
    div_mod::lemma_fundamental_div_mod(n, size);
    div_mod::lemma_mod_bound(n, size);
    if m + k < 0 {
        assert(n + k == (q - 1) * size + (m + k + size)) by (nonlinear_arith)
            requires
                n == size * q + m,
        ;
        div_mod::lemma_fundamental_div_mod_converse(n + k, size, q - 1, m + k + size);
    } else if m + k < size {
        assert(n + k == q * size + (m + k)) by (nonlinear_arith)
            requires
                n == size * q + m,
        ;
        div_mod::lemma_fundamental_div_mod_converse(n + k, size, q, m + k);
    } else {
        assert(n + k == (q + 1) * size + (m + k - size)) by (nonlinear_arith)
            requires
                n == size * q + m,
        ;
        div_mod::lemma_fundamental_div_mod_converse(n + k, size, q + 1, m + k - size);
    }
}

/// Bit `i` of a byte.
pub open spec fn byte_bit(b: u8, i: int) -> bool {
    (b >> (i as u8)) & 1 == 1
}

/// Bit `i` of a word.
pub open spec fn word_bit(w: u64, i: int) -> bool {
    (w >> (i as u64)) & 1 == 1
}

/// The `k`-th byte of a word, least significant first.
pub open spec fn word_byte(w: u64, k: int) -> u8 {
    (w >> ((8 * k) as u64)) as u8
}

/// Bit `i` of a word is bit `i % 8` of its byte `i / 8`.
pub proof fn lemma_word_byte_bit(w: u64, i: int)
    requires
        0 <= i < 64,
    ensures
        byte_bit(word_byte(w, i / 8), i % 8) == word_bit(w, i),
{
    let k: u64 = (i / 8) as u64;
    let j: u64 = (i % 8) as u64;
    let j8: u8 = (i % 8) as u8;
    let n: u64 = i as u64;
    assert((((w >> ((8 * k) as u64)) as u8 >> j8) & 1 == 1) == ((w >> n) & 1 == 1)) by (bit_vector)
        requires
            k < 8,
            j < 8,
            j8 as u64 == j,
            n == 8 * k + j,
    ;
}

/// The word whose bytes are `b`, least significant first.
pub open spec fn word_of(b: Seq<u8>) -> u64 {
    b[0] as u64 | (b[1] as u64) << 8 | (b[2] as u64) << 16 | (b[3] as u64) << 24 | (b[4] as u64)
        << 32 | (b[5] as u64) << 40 | (b[6] as u64) << 48 | (b[7] as u64) << 56
}

/// A word assembled from bytes has those bytes.
pub proof fn lemma_word_of(b: Seq<u8>)
    requires
        b.len() == 8,
    ensures
        forall|k: int| 0 <= k < 8 ==> #[trigger] word_byte(word_of(b), k) == b[k],
{
    let (b0, b1, b2, b3, b4, b5, b6, b7) = (b[0], b[1], b[2], b[3], b[4], b[5], b[6], b[7]);
    let w: u64 = word_of(b);
    assert((w >> 0u64) as u8 == b0 && (w >> 8u64) as u8 == b1 && (w >> 16u64) as u8 == b2 && (w
        >> 24u64) as u8 == b3 && (w >> 32u64) as u8 == b4 && (w >> 40u64) as u8 == b5 && (w
        >> 48u64) as u8 == b6 && (w >> 56u64) as u8 == b7) by (bit_vector)
        requires
            w == (b0 as u64 | (b1 as u64) << 8 | (b2 as u64) << 16 | (b3 as u64) << 24 | (b4 as u64)
                << 32 | (b5 as u64) << 40 | (b6 as u64) << 48 | (b7 as u64) << 56),
    ;
    assert forall|k: int| 0 <= k < 8 implies #[trigger] word_byte(w, k) == b[k] by {
        if k == 0 {
        } else if k == 1 {
        } else if k == 2 {
        } else if k == 3 {
        } else if k == 4 {
        } else if k == 5 {
        } else if k == 6 {
        }
    }
}

/// The lowest bit in which two words differ lies in the first byte in which they differ.
pub proof fn lemma_first_difference(x: u64, y: u64, t: u64)
    requires
        t < 64,
        ((x ^ y) >> t) & 1 == 1,
        (x ^ y) << ((64 - t) as u64) == 0,
    ensures
        word_byte(x, t as int / 8) != word_byte(y, t as int / 8),
        forall|j: int| 0 <= j < t as int / 8 ==> #[trigger] word_byte(x, j) == word_byte(y, j),
{
    let k: u64 = t / 8;
    let up: u64 = (64 - t) as u64;
    assert((x >> ((8 * k) as u64)) as u8 != (y >> ((8 * k) as u64)) as u8 && (forall|j: u64|
        j < k ==> #[trigger] ((x >> ((8 * j) as u64)) as u8) == (y >> ((8 * j) as u64)) as u8))
        by (bit_vector)
        requires
            t < 64,
            k == t / 8,
            up == 64 - t,
            ((x ^ y) >> t) & 1 == 1,
            (x ^ y) << up == 0,
    ;
    assert forall|j: int| 0 <= j < t as int / 8 implies #[trigger] word_byte(x, j) == word_byte(
        y,
        j,
    ) by {
        let n: u64 = j as u64;
        assert((x >> ((8 * n) as u64)) as u8 == (y >> ((8 * n) as u64)) as u8);
    }
}

/// Words that differ nowhere are equal.
pub proof fn lemma_xor_zero(x: u64, y: u64)
    ensures
        x ^ y == 0 <==> x == y,
{
    assert(x ^ y == 0 <==> x == y) by (bit_vector);
}

/// The empty word has no bit.
pub proof fn lemma_empty_mask(i: int)
    requires
        0 <= i < 64,
    ensures
        !word_bit(0u64, i),
{
    let j: u64 = i as u64;
    assert((0u64 >> j) & 1 == 0) by (bit_vector);
}

/// Setting bit `k` changes no other bit.
pub proof fn lemma_set_bit(w: u64, k: usize, i: int)
    requires
        k < 64,
        0 <= i < 64,
    ensures
        word_bit(w | (1u64 << k), i) == (i == k || word_bit(w, i)),
{
    let j: u64 = i as u64;
    let n: u64 = k as u64;
    assert((((w | (1u64 << n)) >> j) & 1 == 1) == (j == n || (w >> j) & 1 == 1)) by (bit_vector)
        requires
            n < 64,
            j < 64,
    ;
}

/// The byte a bit of a word lies in.
pub proof fn lemma_byte_of_bit(t: u32)
    ensures
        (t as usize) >> 3 == t as int / 8,
{
    let n: usize = t as usize;
    assert(n >> 3 == n / 8) by (bit_vector);
}

/// Clearing bit `k` changes no other bit.
pub proof fn lemma_clear_bit(w: u64, k: usize, i: int)
    requires
        k < 64,
        0 <= i < 64,
    ensures
        word_bit(w & !(1u64 << k), i) == (i != k && word_bit(w, i)),
{
    let j: u64 = i as u64;
    let n: u64 = k as u64;
    assert((((w & !(1u64 << n)) >> j) & 1 == 1) == (j != n && (w >> j) & 1 == 1)) by (bit_vector)
        requires
            n < 64,
            j < 64,
    ;
}

/// The lowest bit of a word is zero or one.
pub proof fn lemma_bit_is_one_or_zero(w: u64)
    ensures
        w & 1 == 0 || w & 1 == 1,
{
    assert(w & 1 == 0 || w & 1 == 1) by (bit_vector);
}

/// A word of `k` ones can be written as a shifted one less one.
pub proof fn lemma_low_ones(k: u64)
    requires
        k <= 32,
    ensures
        1u64 << k >= 1,
{
    assert(1u64 << k >= 1) by (bit_vector)
        requires
            k <= 32,
    ;
}

/// Masking with the ones of lanes `from..to` keeps those lanes.
pub proof fn lemma_lane_range(w: u64, from: u64, to: u64, i: int)
    requires
        from <= to <= 32,
        0 <= i < 64,
    ensures
        word_bit(w & ((((1u64 << to) - 1) as u64) ^ (((1u64 << from) - 1) as u64)), i) == (from <= i
            < to && word_bit(w, i)),
{
    let j: u64 = i as u64;
    let a: u64 = ((1u64 << to) - 1) as u64;
    let b: u64 = ((1u64 << from) - 1) as u64;
    assert((((w & (a ^ b)) >> j) & 1 == 1) == (from <= j && j < to && (w >> j) & 1 == 1))
        by (bit_vector)
        requires
            from <= to <= 32,
            j < 64,
            a == ((1u64 << to) - 1) as u64,
            b == ((1u64 << from) - 1) as u64,
    ;
}

/// Rotating `width` lanes down by `turn`.
pub proof fn lemma_rotated(w: u64, turn: u64, width: u64, i: int)
    requires
        width == 16 || width == 32,
        turn < width,
        0 <= i < width,
        forall|j: int| width <= j < 64 ==> !#[trigger] word_bit(w, j),
    ensures
        word_bit((w >> turn) | (w << ((width - turn) as u64)), i) == word_bit(
            w,
            if i + turn < width {
                i + turn
            } else {
                i + turn - width
            },
        ),
{
    let j: u64 = i as u64;
    let up: u64 = (width - turn) as u64;
    let k: u64 = if i + turn < width {
        (i + turn) as u64
    } else {
        (i + turn - width) as u64
    };
    if i + turn >= width {
        assert(!word_bit(w, i + turn));
    }
    let past: u64 = (i + turn) as u64;
    assert(((((w >> turn) | (w << up)) >> j) & 1 == 1) == ((w >> k) & 1 == 1)) by (bit_vector)
        requires
            width == 16 || width == 32,
            turn < width,
            j < width,
            up == width - turn,
            past == j + turn,
            past < width ==> k == past,
            past >= width ==> k == past - width,
            past >= width ==> !((w >> past) & 1 == 1),
    ;
}

/// A power of two, as an integer.
pub open spec fn is_pow2(x: int) -> bool {
    exists|k: nat| x == #[trigger] power2::pow2(k)
}

/// The exponent of a power of two.
pub open spec fn exponent(x: int) -> nat {
    choose|k: nat| x == #[trigger] power2::pow2(k)
}

/// The exponent of a power of two gives it back.
pub proof fn lemma_exponent(x: int)
    requires
        is_pow2(x),
    ensures
        x == power2::pow2(exponent(x)),
        x > 0,
{
    power2::lemma_pow2_pos(exponent(x));
}

/// A power of two that fits a machine word has an exponent below its width.
pub proof fn lemma_exponent_fits(x: usize)
    requires
        is_pow2(x as int),
    ensures
        exponent(x as int) < usize::BITS,
{
    let k = exponent(x as int);
    lemma_exponent(x as int);
    power2::lemma2_to64();
    if k >= usize::BITS {
        if k > usize::BITS as nat {
            power2::lemma_pow2_strictly_increases(usize::BITS as nat, k);
        }
    }
}

/// Sixteen lanes starting at a multiple of sixteen fit a bucket of at least sixteen.
pub proof fn lemma_group_fits(capacity: int, k: nat, newest: int)
    requires
        capacity == power2::pow2(k),
        capacity >= 16,
        0 <= newest < capacity,
    ensures
        newest - newest % 16 + 16 <= capacity,
{
    power2::lemma2_to64();
    if k < 4 {
        power2::lemma_pow2_strictly_increases(k, 4);
    }
    power2::lemma_pow2_adds(4, (k - 4) as nat);
    let f = power2::pow2((k - 4) as nat) as int;
    assert(capacity == 16 * f);
}

/// Zero has no bit set.
pub proof fn lemma_zero_has_no_bit()
    ensures
        0u64 & 1 == 0,
{
    lemma_empty_mask(0);
    assert(0u64 & 1 == 0) by (bit_vector);
}

/// An entry carries a slot's tag exactly when it belongs to the slot.
pub proof fn lemma_slot_tag(entry: u32, slot: u32)
    requires
        slot < 0x2_0000,
    ensures
        (entry & !0x7FFFu32 == slot << 15) == (entry >> 15 == slot),
{
    assert((entry & !0x7FFFu32 == slot << 15) == (entry >> 15 == slot)) by (bit_vector)
        requires
            slot < 0x2_0000,
    ;
}

/// Packing a slot above a position plus one keeps both.
pub proof fn lemma_slot_entry(slot: u32, value: u32)
    requires
        slot < 0x2_0000,
        value < 0x7FFF,
    ensures
        ({
            let entry = (slot << 15) | ((value + 1) as u32);
            entry != 0 && entry >> 15 == slot && entry & 0x7FFF == value + 1
        }),
{
    let next: u32 = (value + 1) as u32;
    let entry: u32 = (slot << 15) | next;
    assert(entry != 0 && entry >> 15 == slot && entry & 0x7FFF == next) by (bit_vector)
        requires
            slot < 0x2_0000,
            1 <= next <= 0x7FFF,
            entry == (slot << 15) | next,
    ;
}

/// The fields of an entry are in range.
pub proof fn lemma_slot_fields(entry: u32)
    ensures
        entry >> 15 < 0x2_0000,
        entry & 0x7FFF <= 0x7FFF,
{
    assert(entry >> 15 < 0x2_0000 && entry & 0x7FFF <= 0x7FFF) by (bit_vector);
}

/// Packing a key above a counter above an offset keeps all three.
pub proof fn lemma_key_entry(key: u64, count: u16, offset: u32)
    requires
        key < 0xFFFF,
    ensures
        ({
            let entry = (key << 48) | ((count as u64) << 32) | offset as u64;
            entry != 0xFFFF_FFFF_FFFF_FFFF && entry >> 48 == key && (entry >> 32) as u16 == count
                && entry as u32 == offset
        }),
{
    let entry: u64 = (key << 48) | ((count as u64) << 32) | offset as u64;
    assert(entry != 0xFFFF_FFFF_FFFF_FFFF && entry >> 48 == key && (entry >> 32) as u16 == count
        && entry as u32 == offset) by (bit_vector)
        requires
            key < 0xFFFF,
            entry == (key << 48) | ((count as u64) << 32) | offset as u64,
    ;
}

/// A cached-distance penalty is small.
pub proof fn lemma_penalty_bound(index: u64)
    ensures
        (0x1CA10u64 >> (index & 0xE)) & 0xE <= 14,
        index & 0xE < 16,
{
    assert((0x1CA10u64 >> (index & 0xE)) & 0xE <= 14 && index & 0xE < 16) by (bit_vector);
}

/// The low half of a word has its low bits.
pub proof fn lemma_low_half(w: u64, i: int)
    requires
        0 <= i < 32,
    ensures
        word_bit((w as u32) as u64, i) == word_bit(w, i),
{
    let j: u64 = i as u64;
    assert(((((w as u32) as u64) >> j) & 1 == 1) == ((w >> j) & 1 == 1)) by (bit_vector)
        requires
            j < 32,
    ;
}

/// A half word of ones has every bit.
pub proof fn lemma_all_ones(i: int)
    requires
        0 <= i < 32,
    ensures
        word_bit(0xFFFF_FFFFu32 as u64, i),
{
    let j: u64 = i as u64;
    assert(((0xFFFF_FFFFu32 as u64) >> j) & 1 == 1) by (bit_vector)
        requires
            j < 32,
    ;
}

/// Rotating `bits` lanes down by `newest` and keeping the low `available` ones.
pub proof fn lemma_rotated_ages(equal: u32, bits: u32, newest: u32, available: u32, age: u32)
    requires
        0 < bits <= 32,
        newest < bits,
        available <= bits,
        age < 32,
    ensures
        ({
            let lanes = 0xFFFF_FFFFu32 >> ((32 - bits) as u32);
            let filled = if available == 0 {
                0u32
            } else {
                0xFFFF_FFFFu32 >> ((32 - available) as u32)
            };
            let masked = equal & lanes;
            let wrapped = if newest == 0 && bits == 32 {
                0u32
            } else {
                (masked << ((bits - newest) as u32)) & lanes
            };
            let ages = ((masked >> newest) | wrapped) & filled;
            word_bit(ages as u64, age as int) == (age < available && word_bit(
                equal as u64,
                if newest + age >= bits {
                    newest + age - bits
                } else {
                    newest + age
                },
            ))
        }),
{
    let lanes: u32 = 0xFFFF_FFFFu32 >> ((32 - bits) as u32);
    let filled: u32 = if available == 0 {
        0
    } else {
        0xFFFF_FFFFu32 >> ((32 - available) as u32)
    };
    let masked: u32 = equal & lanes;
    let wrapped: u32 = if newest == 0 && bits == 32 {
        0
    } else {
        (masked << ((bits - newest) as u32)) & lanes
    };
    let ages: u32 = ((masked >> newest) | wrapped) & filled;
    let slot: u64 = if newest + age >= bits {
        (newest + age - bits) as u64
    } else {
        (newest + age) as u64
    };
    let a: u64 = age as u64;
    let up: u32 = (bits - newest) as u32;
    let down: u32 = (32 - bits) as u32;
    let rest: u32 = if available == 0 {
        0
    } else {
        (32 - available) as u32
    };
    assert((((ages as u64) >> a) & 1 == 1) == (age < available && (((equal as u64) >> slot) & 1 == 1)))
        by (bit_vector)
        requires
            0 < bits <= 32,
            newest < bits,
            available <= bits,
            age < 32,
            a == age as u64,
            up == bits - newest,
            down == 32 - bits,
            available != 0 ==> rest == 32 - available,
            newest + age >= bits ==> slot == newest + age - bits,
            newest + age < bits ==> slot == newest + age,
            lanes == 0xFFFF_FFFFu32 >> down,
            available == 0 ==> filled == 0,
            available != 0 ==> filled == 0xFFFF_FFFFu32 >> rest,
            masked == equal & lanes,
            newest == 0 && bits == 32 ==> wrapped == 0,
            !(newest == 0 && bits == 32) ==> wrapped == (masked << up) & lanes,
            ages == ((masked >> newest) | wrapped) & filled,
    ;
}

/// Or-ing a field above the `off` low bits of a byte keeps both.
pub proof fn lemma_merge_bits(b: u8, bits: u64, off: u64, i: int)
    requires
        off < 8,
        0 <= i < 64,
    ensures
        i < off ==> word_bit(b as u64 | (bits << off), i) == byte_bit(b, i),
        i >= off && (b as u64) >> off == 0 ==> word_bit(b as u64 | (bits << off), i) == word_bit(
            bits,
            i - off,
        ),
{
    let n: u64 = i as u64;
    let n8: u8 = i as u8;
    let m: u64 = if i >= off { (i - off) as u64 } else { 0 };
    assert(n < off ==> ((((b as u64 | (bits << off)) >> n) & 1 == 1) == ((b >> n8) & 1 == 1)))
        by (bit_vector)
        requires
            off < 8,
            n < 64,
            n8 == (n as u8),
    ;
    assert(n >= off && (b as u64) >> off == 0 ==> ((((b as u64 | (bits << off)) >> n) & 1 == 1) == ((
    bits >> m) & 1 == 1))) by (bit_vector)
        requires
            off < 8,
            n < 64,
            n >= off ==> m == n - off,
    ;
}

/// A field of `n` bits has no bit set at or above `n`.
pub proof fn lemma_narrow_field(bits: u64, n: u64, i: int)
    requires
        n < 64,
        bits >> n == 0,
        n <= i < 64,
    ensures
        !word_bit(bits, i),
{
    let j: u64 = i as u64;
    assert((bits >> j) & 1 == 0) by (bit_vector)
        requires
            n <= j < 64,
            n < 64,
            bits >> n == 0,
    ;
}

/// Replacing bits `from..to` of a byte with the low bits of `bits` leaves the rest alone.
pub proof fn lemma_patch_byte(b: u8, bits: u32, from: u32, to: u32, i: int)
    requires
        from < to <= 8,
        0 <= i < 8,
    ensures
        ({
            let mask = !(((1u32 << to) - 1) as u32) | (((1u32 << from) - 1) as u32);
            let fresh = bits & (((1u32 << ((to - from) as u32)) - 1) as u32);
            let patched = ((fresh << from) | ((b as u32) & mask)) as u8;
            byte_bit(patched, i) == if from <= i < to {
                word_bit(bits as u64, i - from)
            } else {
                byte_bit(b, i)
            }
        }),
{
    let width: u32 = (to - from) as u32;
    let j: u8 = i as u8;
    let m: u64 = if i >= from { (i - from) as u64 } else { 0 };
    let mask: u32 = !(((1u32 << to) - 1) as u32) | (((1u32 << from) - 1) as u32);
    let fresh: u32 = bits & (((1u32 << width) - 1) as u32);
    let patched: u8 = ((fresh << from) | ((b as u32) & mask)) as u8;
    assert(((patched >> j) & 1 == 1) == if from <= j as u32 && (j as u32) < to {
        ((bits as u64) >> m) & 1 == 1
    } else {
        (b >> j) & 1 == 1
    }) by (bit_vector)
        requires
            from < to <= 8,
            j < 8,
            width == to - from,
            j as u32 >= from ==> m == j as u32 - from,
            mask == !(((1u32 << to) - 1) as u32) | (((1u32 << from) - 1) as u32),
            fresh == bits & (((1u32 << width) - 1) as u32),
            patched == ((fresh << from) | ((b as u32) & mask)) as u8,
    ;
}

/// Shifting a 32-bit field down drops its low bits.
pub proof fn lemma_shift_field(bits: u32, by: u32, i: int)
    requires
        0 < by <= 8,
        0 <= i,
        i + by < 64,
    ensures
        word_bit((bits >> by) as u64, i) == word_bit(bits as u64, i + by),
{
    let j: u64 = i as u64;
    let k: u64 = (i + by) as u64;
    assert(((((bits >> by) as u64) >> j) & 1 == 1) == (((bits as u64) >> k) & 1 == 1))
        by (bit_vector)
        requires
            0 < by <= 8,
            k == j + by,
            k < 64,
    ;
}

/// Keeping the low `k` bits of a byte clears the ones above.
pub proof fn lemma_low_bits(b: u8, k: usize, i: int)
    requires
        k < 8,
        0 <= i < 8,
    ensures
        byte_bit(b & (((1u16 << k) - 1) as u8), i) == (byte_bit(b, i) && i < k),
{
    let j: u8 = i as u8;
    let k8: u8 = k as u8;
    let mask: u8 = ((1u16 << k) - 1) as u8;
    assert((((b & mask) >> j) & 1 == 1) == (((b >> j) & 1 == 1) && j < k8)) by (bit_vector)
        requires
            k < 8,
            k8 == (k as u8),
            j < 8,
            mask == ((1u16 << k) - 1) as u8,
    ;
}

/// Regrouping direct distance codes gives them back exactly when they are at
/// most fifteen whole groups.
pub proof fn lemma_whole_groups(direct: u32, postfix: u32)
    requires
        postfix <= 3,
        direct <= 120,
    ensures
        ((((direct >> postfix) & 0x0F) << postfix) == direct) <==> (direct as nat % power2::pow2(
            postfix as nat,
        ) == 0 && direct as nat / power2::pow2(postfix as nat) <= 15),
{
    power2::lemma2_to64();
    let back: bool = (((direct >> postfix) & 0x0F) << postfix) == direct;
    assert((postfix == 0 ==> (back <==> direct <= 15)) && (postfix == 1 ==> (back <==> (direct % 2 == 0
        && direct / 2 <= 15))) && (postfix == 2 ==> (back <==> (direct % 4 == 0 && direct / 4 <= 15)))
        && (postfix == 3 ==> (back <==> (direct % 8 == 0 && direct / 8 <= 15)))) by (bit_vector)
        requires
            back == ((((direct >> postfix) & 0x0F) << postfix) == direct),
    ;
    let unit = power2::pow2(postfix as nat);
    if postfix == 0 {
        assert(unit == 1);
    } else if postfix == 1 {
        assert(unit == 2);
    } else if postfix == 2 {
        assert(unit == 4);
    } else {
        assert(unit == 8);
    }
}

/// The powers of two a byte patch subtracts one from are positive.
pub proof fn lemma_shift_bounds(a: u32, b: u32, c: u32)
    requires
        a <= 8,
        b <= 8,
        c <= 8,
    ensures
        1 <= 1u32 << a <= 256,
        1 <= 1u32 << b <= 256,
        1 <= 1u32 << c <= 256,
{
    assert(forall|k: u32| k <= 8 ==> 1 <= #[trigger] (1u32 << k) <= 256) by (bit_vector);
}

/// A partial-byte mask fits a byte.
pub proof fn lemma_keep_mask(k: usize)
    requires
        k < 8,
    ensures
        1 <= 1u16 << k <= 128,
{
    assert(1 <= 1u16 << k <= 128) by (bit_vector)
        requires
            k < 8,
    ;
}

/// A 32-bit value has no bit above its width.
pub proof fn lemma_half_word(w: u32, i: int)
    requires
        32 <= i < 64,
    ensures
        !word_bit(w as u64, i),
{
    let j: u64 = i as u64;
    assert(((w as u64) >> j) & 1 == 0) by (bit_vector)
        requires
            32 <= j < 64,
    ;
}

/// A byte without a bit at or above `k` is zero when shifted down by `k`.
pub proof fn lemma_high_bits_clear(b: u8, k: int)
    requires
        0 <= k < 8,
        forall|j: int| k <= j < 8 ==> !#[trigger] byte_bit(b, j),
    ensures
        (b as u64) >> (k as u64) == 0,
{
    let n: u64 = k as u64;
    assert(k <= 0 ==> !byte_bit(b, 0));
    assert(k <= 1 ==> !byte_bit(b, 1));
    assert(k <= 2 ==> !byte_bit(b, 2));
    assert(k <= 3 ==> !byte_bit(b, 3));
    assert(k <= 4 ==> !byte_bit(b, 4));
    assert(k <= 5 ==> !byte_bit(b, 5));
    assert(k <= 6 ==> !byte_bit(b, 6));
    assert(!byte_bit(b, 7));
    assert((b as u64) >> n == 0) by (bit_vector)
        requires
            n < 8,
            n <= 0 ==> !((b >> 0u8) & 1 == 1),
            n <= 1 ==> !((b >> 1u8) & 1 == 1),
            n <= 2 ==> !((b >> 2u8) & 1 == 1),
            n <= 3 ==> !((b >> 3u8) & 1 == 1),
            n <= 4 ==> !((b >> 4u8) & 1 == 1),
            n <= 5 ==> !((b >> 5u8) & 1 == 1),
            n <= 6 ==> !((b >> 6u8) & 1 == 1),
            !((b >> 7u8) & 1 == 1),
    ;
}

/// A packed table entry gives back its stamp, offset and counter.
pub proof fn lemma_packed_entry(stamp: u64, offset: u32, count: u16)
    by (bit_vector)
    requires
        stamp <= 0x7F_FFFF,
        offset < 0x200_0000,
    ensures
        ((stamp << 41) | ((offset as u64) << 16) | (count as u64)) >> 41 == stamp,
        (((stamp << 41) | ((offset as u64) << 16) | (count as u64)) >> 16) & 0x1FF_FFFF
            == offset as u64,
        ((stamp << 41) | ((offset as u64) << 16) | (count as u64)) as u16 == count,
{
}

/// The fields of a cleared table entry are zero, and no offset field exceeds its width.
pub proof fn lemma_entry_fields(entry: u64)
    by (bit_vector)
    ensures
        (entry >> 16) & 0x1FF_FFFF < 0x200_0000,
        (0u64 >> 16) & 0x1FF_FFFF == 0,
        0u64 >> 41 == 0,
        entry >> 41 <= 0x7F_FFFF,
{
}

/// A linked node gives back its position and its link.
pub proof fn lemma_linked_node(position: u32, link: u32)
    by (bit_vector)
    ensures
        ((position as u64) | ((link as u64) << 32)) as u32 == position,
        ((position as u64) | ((link as u64) << 32)) >> 32 == link as u64,
{
}

/// How many elements of a sequence have a property.
pub open spec fn tally<T>(s: Seq<T>, p: spec_fn(T) -> bool) -> nat
    decreases s.len(),
{
    if s.len() == 0 {
        0
    } else {
        tally(s.drop_last(), p) + if p(s.last()) {
            1nat
        } else {
            0nat
        }
    }
}

/// No more elements have a property than there are.
pub proof fn lemma_tally_bound<T>(s: Seq<T>, p: spec_fn(T) -> bool)
    ensures
        tally(s, p) <= s.len(),
    decreases s.len(),
{
    if s.len() > 0 {
        lemma_tally_bound(s.drop_last(), p);
    }
}

/// Replacing an element changes the tally by that element alone.
pub proof fn lemma_tally_update<T>(s: Seq<T>, p: spec_fn(T) -> bool, i: int, value: T)
    requires
        0 <= i < s.len(),
    ensures
        tally(s.update(i, value), p) == tally(s, p) - if p(s[i]) {
            1int
        } else {
            0int
        } + if p(value) {
            1int
        } else {
            0int
        },
        !p(s[i]) ==> tally(s, p) < s.len(),
    decreases s.len(),
{
    let shorter = s.drop_last();
    let changed = s.update(i, value);
    lemma_tally_bound(shorter, p);
    if i == s.len() - 1 {
        assert(changed.drop_last() =~= shorter);
    } else {
        lemma_tally_update(shorter, p, i, value);
        assert(changed.drop_last() =~= shorter.update(i, value));
    }
}

/// A sequence without the property has a tally of zero.
pub proof fn lemma_tally_none<T>(s: Seq<T>, p: spec_fn(T) -> bool)
    requires
        forall|i: int| 0 <= i < s.len() ==> !p(#[trigger] s[i]),
    ensures
        tally(s, p) == 0,
    decreases s.len(),
{
    if s.len() > 0 {
        lemma_tally_none(s.drop_last(), p);
    }
}

/// The tally of two sequences put together is the sum of theirs.
pub proof fn lemma_tally_append<T>(left: Seq<T>, right: Seq<T>, p: spec_fn(T) -> bool)
    ensures
        tally(left + right, p) == tally(left, p) + tally(right, p),
    decreases right.len(),
{
    if right.len() == 0 {
        assert(left + right =~= left);
    } else {
        lemma_tally_append(left, right.drop_last(), p);
        assert((left + right).drop_last() =~= left + right.drop_last());
    }
}

/// The top bits of a word are below their power of two.
pub proof fn lemma_top_bits(w: u64, down: u64, k: nat)
    requires
        down < 64,
        down + k == 64,
    ensures
        (w >> down) < power2::pow2(k),
{
    bits::lemma_u64_shr_is_div(w, down);
    power2::lemma_pow2_adds(down as nat, k);
    power2::lemma_pow2_pos(down as nat);
    power2::lemma2_to64();
    let unit = power2::pow2(down as nat) as int;
    let top = power2::pow2(k) as int;
    assert(w < unit * top);
    assert(w as int / unit < top) by (nonlinear_arith)
        requires
            0 <= w < unit * top,
            unit > 0,
    ;
}

/// Two words agree in their low forty bits exactly if their low five bytes agree.
pub proof fn lemma_low_five_bytes(x: u64, y: u64)
    ensures
        (x ^ y) & 0xFF_FFFF_FFFF == 0 <==> (forall|k: int|
            0 <= k < 5 ==> #[trigger] word_byte(x, k) == word_byte(y, k)),
{
    assert((x ^ y) & 0xFF_FFFF_FFFF == 0 <==> ((x >> 0u64) as u8 == (y >> 0u64) as u8 && (x >> 8u64) as u8
        == (y >> 8u64) as u8 && (x >> 16u64) as u8 == (y >> 16u64) as u8 && (x >> 24u64) as u8 == (y
        >> 24u64) as u8 && (x >> 32u64) as u8 == (y >> 32u64) as u8)) by (bit_vector);
    assert(word_byte(x, 0) == (x >> 0u64) as u8 && word_byte(y, 0) == (y >> 0u64) as u8);
    assert(word_byte(x, 1) == (x >> 8u64) as u8 && word_byte(y, 1) == (y >> 8u64) as u8);
    assert(word_byte(x, 2) == (x >> 16u64) as u8 && word_byte(y, 2) == (y >> 16u64) as u8);
    assert(word_byte(x, 3) == (x >> 24u64) as u8 && word_byte(y, 3) == (y >> 24u64) as u8);
    assert(word_byte(x, 4) == (x >> 32u64) as u8 && word_byte(y, 4) == (y >> 32u64) as u8);
}

/// Shifting a word by whole bytes leaves the five bytes a word read further on begins with.
pub proof fn lemma_shifted_five(b: Seq<u8>, c: Seq<u8>, offset: u32)
    requires
        b.len() == 8,
        c.len() == 8,
        offset <= 3,
        forall|k: int| 0 <= k < 5 ==> #[trigger] c[k] == b[k + offset],
    ensures
        (word_of(b) >> ((8 * offset) as u64)) << 24u64 == word_of(c) << 24u64,
{
    let (b0, b1, b2, b3, b4, b5, b6, b7) = (b[0], b[1], b[2], b[3], b[4], b[5], b[6], b[7]);
    let (c0, c1, c2, c3, c4, c5, c6, c7) = (c[0], c[1], c[2], c[3], c[4], c[5], c[6], c[7]);
    assert(c[0] == b[0 + offset] && c[1] == b[1 + offset] && c[2] == b[2 + offset] && c[3] == b[3
        + offset] && c[4] == b[4 + offset]);
    let x: u64 = word_of(b);
    let y: u64 = word_of(c);
    let down: u64 = (8 * offset) as u64;
    assert((x >> down) << 24u64 == y << 24u64) by (bit_vector)
        requires
            x == (b0 as u64 | (b1 as u64) << 8 | (b2 as u64) << 16 | (b3 as u64) << 24 | (b4 as u64)
                << 32 | (b5 as u64) << 40 | (b6 as u64) << 48 | (b7 as u64) << 56),
            y == (c0 as u64 | (c1 as u64) << 8 | (c2 as u64) << 16 | (c3 as u64) << 24 | (c4 as u64)
                << 32 | (c5 as u64) << 40 | (c6 as u64) << 48 | (c7 as u64) << 56),
            offset <= 3,
            down == 8 * offset,
            offset == 0 ==> c0 == b0 && c1 == b1 && c2 == b2 && c3 == b3 && c4 == b4,
            offset == 1 ==> c0 == b1 && c1 == b2 && c2 == b3 && c3 == b4 && c4 == b5,
            offset == 2 ==> c0 == b2 && c1 == b3 && c2 == b4 && c3 == b5 && c4 == b6,
            offset == 3 ==> c0 == b3 && c1 == b4 && c2 == b5 && c3 == b6 && c4 == b7,
    ;
}

/// The two bits that end a stream fill the low bits of a fresh byte.
pub proof fn lemma_closing_bits()
    ensures
        3u64 >> 2u64 == 0,
        0u8 as u64 | (3u64 << 0u64) == 3,
        word_byte(3, 0) == 3,
        0u8 as u64 | (1u64 << 0u64) == 1,
        word_byte(1, 0) == 1,
        1u8 as u64 | (1u64 << 1u64) == 3,
{
    assert(3u64 >> 2u64 == 0 && (0u64 | (3u64 << 0u64)) == 3 && (3u64 >> 0u64) as u8 == 3 && (0u64 | (
    1u64 << 0u64)) == 1 && (1u64 >> 0u64) as u8 == 1 && (1u64 | (1u64 << 1u64)) == 3)
        by (bit_vector);
}

/// Setting a bit changes that bit alone.
pub proof fn lemma_wide_bit_set(bits: u128, k: u128, j: u128)
    requires
        k < 128,
        j < 128,
    ensures
        ((bits | (1u128 << k)) >> j) & 1 == if j == k {
            1u128
        } else {
            (bits >> j) & 1
        },
{
    assert(((bits | (1u128 << k)) >> j) & 1 == if j == k {
        1u128
    } else {
        (bits >> j) & 1
    }) by (bit_vector)
        requires
            k < 128,
            j < 128,
    ;
}

/// Zero has no bits set.
pub proof fn lemma_wide_zero(j: u128)
    requires
        j < 128,
    ensures
        (0u128 >> j) & 1 == 0,
{
    assert((0u128 >> j) & 1 == 0) by (bit_vector)
        requires
            j < 128,
    ;
}

/// Words whose low bytes agree are the same once all others are shifted out.
pub proof fn lemma_low_bytes_shifted(x: u64, y: u64, count: u64)
    requires
        1 <= count <= 8,
        forall|k: int| 0 <= k < count ==> #[trigger] word_byte(x, k) == word_byte(y, k),
    ensures
        x << ((64 - 8 * count) as u64) == y << ((64 - 8 * count) as u64),
{
    assert(word_byte(x, 0) == word_byte(y, 0));
    assert(count > 1 ==> word_byte(x, 1) == word_byte(y, 1));
    assert(count > 2 ==> word_byte(x, 2) == word_byte(y, 2));
    assert(count > 3 ==> word_byte(x, 3) == word_byte(y, 3));
    assert(count > 4 ==> word_byte(x, 4) == word_byte(y, 4));
    assert(count > 5 ==> word_byte(x, 5) == word_byte(y, 5));
    assert(count > 6 ==> word_byte(x, 6) == word_byte(y, 6));
    assert(count > 7 ==> word_byte(x, 7) == word_byte(y, 7));
    let shift: u64 = (64 - 8 * count) as u64;
    assert(x << shift == y << shift) by (bit_vector)
        requires
            1 <= count <= 8,
            shift == 64 - 8 * count,
            (x >> 0u64) as u8 == (y >> 0u64) as u8,
            count > 1 ==> (x >> 8u64) as u8 == (y >> 8u64) as u8,
            count > 2 ==> (x >> 16u64) as u8 == (y >> 16u64) as u8,
            count > 3 ==> (x >> 24u64) as u8 == (y >> 24u64) as u8,
            count > 4 ==> (x >> 32u64) as u8 == (y >> 32u64) as u8,
            count > 5 ==> (x >> 40u64) as u8 == (y >> 40u64) as u8,
            count > 6 ==> (x >> 48u64) as u8 == (y >> 48u64) as u8,
            count > 7 ==> (x >> 56u64) as u8 == (y >> 56u64) as u8,
    ;
}

/// The low bits of a byte leave nothing above them, and are as they were.
pub proof fn lemma_low_bits_end(b: u8, k: usize, i: int)
    requires
        k < 8,
        0 <= i < 8,
    ensures
        ((b & (((1u16 << k) - 1) as u16 as u8)) as u64) >> (k as u64) == 0,
        i < k ==> byte_bit(b & (((1u16 << k) - 1) as u16 as u8), i) == byte_bit(b, i),
{
    let n: u64 = k as u64;
    let j: u8 = i as u8;
    let low: u8 = b & (((1u16 << k) - 1) as u16 as u8);
    assert((low as u64) >> n == 0 && ((j as usize) < k ==> (low >> j) & 1 == (b >> j) & 1))
        by (bit_vector)
        requires
            low == b & (((1u16 << k) - 1) as u16 as u8),
            n == k as u64,
            k < 8,
            j < 8,
    ;
}

} // verus!
