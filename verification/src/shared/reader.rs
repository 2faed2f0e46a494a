//! Reading a stream back by the rules of the format.
//!
//! A reader of the parts that hold no prefix codes: the window, the headers of
//! meta-blocks, meta-blocks whose bytes follow verbatim, metadata, and the end. What is
//! written elsewhere is held to it.
use vstd::arithmetic::div_mod;
use vstd::arithmetic::mul;
use vstd::arithmetic::power2;
use vstd::prelude::*;

use crate::math;
use crate::shared::bits;

verus! {

/// The number some bits of a stream stand for, the first of them the least.
#[verifier::opaque]
pub open spec fn number_at(s: Seq<u8>, position: int, count: int) -> int
    decreases count,
{
    if count <= 0 {
        0
    } else {
        number_at(s, position, count - 1) + if bits::stream_bit(s, position + count - 1) {
            power2::pow2((count - 1) as nat) as int
        } else {
            0
        }
    }
}

/// The next byte boundary.
pub open spec fn boundary(position: int) -> int {
    (position + 7) / 8 * 8
}

/// The window a stream announces, and how many bits that takes.
///
/// One bit that is not set stands for sixteen. Otherwise three bits that are not all
/// clear are added to seventeen; after three clear ones, three more stand for seventeen
/// where they are clear, and are added to eight where they are more than one. A one there
/// announces a large window, which a clear bit and six bits of its own give.
pub open spec fn window_at(s: Seq<u8>, position: int) -> Option<(int, int)> {
    if number_at(s, position, 1) == 0 {
        Some((16, 1))
    } else if number_at(s, position + 1, 3) != 0 {
        Some((17 + number_at(s, position + 1, 3), 4))
    } else if number_at(s, position + 4, 3) == 0 {
        Some((17, 7))
    } else if number_at(s, position + 4, 3) != 1 {
        Some((8 + number_at(s, position + 4, 3), 7))
    } else if number_at(s, position + 7, 1) == 0 {
        Some((number_at(s, position + 8, 6), 14))
    } else {
        None
    }
}

/// What the header of a meta-block says.
pub enum Header {
    /// The stream ends, and nothing is left.
    End,
    /// So many bytes follow verbatim, behind a header of so many bits.
    Verbatim(int, int),
    /// So many bytes follow, compressed, behind a header of so many bits.
    Compressed(int, int),
    /// So many bytes are to be skipped, behind a header of so many bits.
    Metadata(int, int),
    /// The last meta-block, compressed.
    Last,
    /// Nothing the format knows.
    Broken,
}

/// The header of the meta-block at a position.
///
/// A bit says whether it is the last; the last one is empty if another bit is set. Two
/// bits give the number of nibbles that the length less one takes, less four; a length
/// of more than four nibbles needs all of them. A bit behind the length says whether the
/// bytes follow as they are. Three in place of the nibbles stands for metadata: a clear
/// bit, how many bytes its length less one takes, and these.
pub open spec fn header_at(s: Seq<u8>, position: int) -> Header {
    let extra = number_at(s, position + 1, 2);
    let bits = 16 + 4 * extra;
    let less_one = number_at(s, position + 3, bits);
    if number_at(s, position, 1) == 1 {
        if number_at(s, position + 1, 1) == 1 {
            Header::End
        } else {
            Header::Last
        }
    } else if extra == 3 {
        let count = number_at(s, position + 4, 2);
        if number_at(s, position + 3, 1) == 1 {
            Header::Broken
        } else if count == 0 {
            Header::Metadata(0, 6)
        } else {
            Header::Metadata(number_at(s, position + 6, 8 * count) + 1, 6 + 8 * count)
        }
    } else if extra > 0 && number_at(s, position + 3 + bits - 4, 4) == 0 {
        Header::Broken
    } else if number_at(s, position + 3 + bits, 1) == 1 {
        Header::Verbatim(less_one + 1, 4 + bits)
    } else {
        Header::Compressed(less_one + 1, 4 + bits)
    }
}

/// The bits up to the next byte boundary are clear.
pub open spec fn padded(s: Seq<u8>, position: int) -> bool {
    number_at(s, position, boundary(position) - position) == 0
}

/// What a reader makes of a stream from a meta-block on, if no meta-block is compressed:
/// the bytes that follow headers verbatim, up to the end.
#[verifier::opaque]
pub open spec fn content_from(s: Seq<u8>, position: int) -> Option<Seq<u8>>
    decreases 8 * s.len() - position,
{
    if position < 0 || position >= 8 * s.len() {
        None
    } else {
        match header_at(s, position) {
            Header::End => if padded(s, position + 2) && boundary(position + 2) == 8 * s.len() {
                Some(Seq::empty())
            } else {
                None
            },
            Header::Verbatim(len, bits) => {
                let from = boundary(position + bits) / 8;
                if padded(s, position + bits) && len > 0 && bits > 0 && from + len <= s.len() {
                    match content_from(s, 8 * (from + len)) {
                        Some(rest) => Some(s.subrange(from, from + len) + rest),
                        None => None,
                    }
                } else {
                    None
                }
            },
            Header::Metadata(len, bits) => {
                let from = boundary(position + bits) / 8;
                if padded(s, position + bits) && len >= 0 && bits > 0 && from + len <= s.len() {
                    content_from(s, 8 * (from + len))
                } else {
                    None
                }
            },
            _ => None,
        }
    }
}

/// What a reader makes of a whole stream that holds nothing compressed: the window, and
/// the bytes.
pub open spec fn content_of(s: Seq<u8>) -> Option<(int, Seq<u8>)> {
    match window_at(s, 0) {
        Some((window, bits)) => match content_from(s, bits) {
            Some(content) => Some((window, content)),
            None => None,
        },
        None => None,
    }
}

/// A number of some bits is below the power of two they count to.
pub proof fn lemma_number_bound(s: Seq<u8>, position: int, count: int)
    requires
        0 <= count,
    ensures
        0 <= number_at(s, position, count) < power2::pow2(count as nat),
    decreases count,
{
    reveal(number_at);
    if count == 0 {
        power2::lemma2_to64();
    } else {
        lemma_number_bound(s, position, count - 1);
        power2::lemma_pow2_unfold(count as nat);
    }
}

/// Two runs of bits, one behind the other.
pub proof fn lemma_number_split(s: Seq<u8>, position: int, low: int, high: int)
    requires
        0 <= low,
        0 <= high,
    ensures
        number_at(s, position, low + high) == number_at(s, position, low) + power2::pow2(low as nat)
            * number_at(s, position + low, high),
    decreases high,
{
    reveal(number_at);
    let unit = power2::pow2(low as nat) as int;
    if high == 0 {
        assert(unit * 0 == 0);
    } else {
        lemma_number_split(s, position, low, high - 1);
        let rest = number_at(s, position + low, high - 1);
        if bits::stream_bit(s, position + low + high - 1) {
            power2::lemma_pow2_adds(low as nat, (high - 1) as nat);
            mul::lemma_mul_is_distributive_add(
                unit,
                rest,
                power2::pow2((high - 1) as nat) as int,
            );
        }
    }
}

/// The low part of a number of some bits, and what is above.
pub proof fn lemma_number_parts(s: Seq<u8>, position: int, low: int, high: int)
    requires
        0 <= low,
        0 <= high,
    ensures
        number_at(s, position, low) == number_at(s, position, low + high) % (power2::pow2(
            low as nat,
        ) as int),
        number_at(s, position + low, high) == number_at(s, position, low + high) / (power2::pow2(
            low as nat,
        ) as int),
{
    lemma_number_split(s, position, low, high);
    lemma_number_bound(s, position, low);
    mul::lemma_mul_is_commutative(
        power2::pow2(low as nat) as int,
        number_at(s, position + low, high),
    );
    div_mod::lemma_fundamental_div_mod_converse(
        number_at(s, position, low + high),
        power2::pow2(low as nat) as int,
        number_at(s, position + low, high),
        number_at(s, position, low),
    );
}

/// A bit of a word is what its place says.
proof fn lemma_word_bit(w: u64, i: int)
    requires
        0 <= i < 64,
    ensures
        math::word_bit(w, i) == (w as int / (power2::pow2(i as nat) as int) % 2 == 1),
{
    let n: u64 = i as u64;
    vstd::bits::lemma_u64_shr_is_div(w, n);
    let x: u64 = w >> n;
    assert(x & 1 == x % 2) by (bit_vector);
}

/// The low bits of a number, from one bit more to one bit less.
proof fn lemma_peel(x: int, n: nat)
    requires
        0 <= x,
    ensures
        x % (power2::pow2(n + 1) as int) == x % (power2::pow2(n) as int) + if x / (power2::pow2(n) as int) % 2
            == 1 {
            power2::pow2(n) as int
        } else {
            0
        },
{
    let unit = power2::pow2(n) as int;
    power2::lemma_pow2_pos(n);
    power2::lemma_pow2_unfold(n + 1);
    div_mod::lemma_fundamental_div_mod(x, unit);
    let q = x / unit;
    let r = x % unit;
    div_mod::lemma_fundamental_div_mod(q, 2);
    let h = q / 2;
    let b = q % 2;
    assert(x == (2 * unit) * h + (unit * b + r)) by (nonlinear_arith)
        requires
            x == unit * q + r,
            q == 2 * h + b,
    ;
    assert(0 <= unit * b + r < 2 * unit) by (nonlinear_arith)
        requires
            0 <= b <= 1,
            0 <= r < unit,
    ;
    assert(b == 0 ==> unit * b == 0) by (nonlinear_arith);
    assert(b == 1 ==> unit * b == unit) by (nonlinear_arith);
    div_mod::lemma_fundamental_div_mod_converse(x, 2 * unit, h, unit * b + r);
}

/// Bits that are those of a word stand for its low part.
pub proof fn lemma_number_field(s: Seq<u8>, position: int, count: int, w: u64)
    requires
        0 <= count <= 64,
        forall|i: int|
            0 <= i < count ==> #[trigger] bits::stream_bit(s, position + i) == math::word_bit(w, i),
    ensures
        number_at(s, position, count) == w as int % (power2::pow2(count as nat) as int),
    decreases count,
{
    reveal(number_at);
    if count == 0 {
        power2::lemma2_to64();
    } else {
        lemma_number_field(s, position, count - 1, w);
        lemma_word_bit(w, count - 1);
        lemma_peel(w as int, (count - 1) as nat);
        assert(bits::stream_bit(s, position + (count - 1)) == math::word_bit(w, count - 1));
    }
}

/// The bits of a whole byte stand for it.
pub proof fn lemma_number_byte(s: Seq<u8>, at: int)
    requires
        0 <= at < s.len(),
    ensures
        number_at(s, 8 * at, 8) == s[at],
{
    let b: u8 = s[at];
    let w: u64 = b as u64;
    assert forall|i: int| 0 <= i < 8 implies #[trigger] bits::stream_bit(s, 8 * at + i)
        == math::word_bit(w, i) by {
        assert((8 * at + i) / 8 == at && (8 * at + i) % 8 == i);
        let j: u8 = i as u8;
        let n: u64 = i as u64;
        assert(((b >> j) & 1 == 1) == ((w >> n) & 1 == 1)) by (bit_vector)
            requires
                w == b as u64,
                n == j as u64,
                j < 8,
        ;
    }
    lemma_number_field(s, 8 * at, 8, w);
    power2::lemma2_to64();
    assert(power2::pow2(8) == 256);
    div_mod::lemma_small_mod(w as nat, 256);
}

/// Equal bits stand for the same number.
pub proof fn lemma_number_same(s: Seq<u8>, t: Seq<u8>, position: int, count: int)
    requires
        forall|i: int|
            position <= i < position + count ==> #[trigger] bits::stream_bit(s, i)
                == bits::stream_bit(t, i),
    ensures
        number_at(s, position, count) == number_at(t, position, count),
    decreases count,
{
    reveal(number_at);
    if count > 0 {
        lemma_number_same(s, t, position, count - 1);
        assert(bits::stream_bit(s, position + count - 1) == bits::stream_bit(
            t,
            position + count - 1,
        ));
    }
}

/// The first bytes of a stream decide what their bits stand for.
pub proof fn lemma_number_prefix(s: Seq<u8>, t: Seq<u8>, bytes: int, position: int, count: int)
    requires
        0 <= position,
        0 <= bytes <= s.len(),
        bytes <= t.len(),
        position + count <= 8 * bytes,
        s.take(bytes) == t.take(bytes),
    ensures
        number_at(s, position, count) == number_at(t, position, count),
{
    assert forall|i: int| position <= i < position + count implies #[trigger] bits::stream_bit(
        s,
        i,
    ) == bits::stream_bit(t, i) by {
        assert(0 <= i / 8 < bytes);
        assert(s.take(bytes)[i / 8] == s[i / 8] && t.take(bytes)[i / 8] == t[i / 8]);
    }
    lemma_number_same(s, t, position, count);
}

/// Nothing stands in a partial byte from a position on.
pub open spec fn clean(s: Seq<u8>, position: int) -> bool {
    (s[position / 8] as u64) >> ((position % 8) as u64) == 0
}

/// A field that is written at a clean position reads back, and leaves what was before and
/// a clean position behind.
pub proof fn lemma_field_reads_back(s: Seq<u8>, position: int, n_bits: u32, field: u64)
    requires
        0 <= position,
        position / 8 + bits::WRITE_SLACK <= s.len(),
        n_bits <= bits::MAX_BITS_PER_WRITE,
        field < power2::pow2(n_bits as nat),
        clean(s, position),
    ensures
        number_at(bits::written(s, position, field), position, n_bits as int) == field,
        clean(bits::written(s, position, field), position + n_bits),
        forall|i: int|
            0 <= i < position ==> #[trigger] bits::stream_bit(bits::written(s, position, field), i)
                == bits::stream_bit(s, i),
{
    let after = bits::written(s, position, field);
    let n: u64 = n_bits as u64;
    vstd::bits::lemma_u64_shr_is_div(field, n);
    div_mod::lemma_basic_div(field as int, power2::pow2(n as nat) as int);
    assert forall|i: int| 0 <= i < n_bits implies #[trigger] bits::stream_bit(after, position + i)
        == math::word_bit(field, i) by {
        bits::lemma_write_reads_back(s, position, n_bits, field, position + i);
    }
    lemma_number_field(after, position, n_bits as int, field);
    div_mod::lemma_small_mod(field as nat, power2::pow2(n_bits as nat));
    assert forall|i: int| 0 <= i < position implies #[trigger] bits::stream_bit(after, i)
        == bits::stream_bit(s, i) by {
        bits::lemma_write_reads_back(s, position, n_bits, field, i);
    }
    bits::lemma_write_stays_clean(s, position, n_bits, field);
}

/// The rest of a clean partial byte is clear.
pub proof fn lemma_clean_is_padded(s: Seq<u8>, position: int)
    requires
        0 <= position,
        clean(s, position),
    ensures
        padded(s, position),
{
    let count = boundary(position) - position;
    let b: u8 = s[position / 8];
    assert forall|i: int| 0 <= i < count implies #[trigger] bits::stream_bit(s, position + i)
        == math::word_bit(0, i) by {
        assert((position + i) / 8 == position / 8);
        let j: u8 = ((position + i) % 8) as u8;
        let off: u64 = (position % 8) as u64;
        let n: u64 = i as u64;
        assert((b >> j) & 1 == 0 && (0u64 >> n) & 1 == 0) by (bit_vector)
            requires
                (b as u64) >> off == 0,
                off <= j as u64,
                j < 8,
                n < 64,
        ;
    }
    lemma_number_field(s, position, count, 0);
    power2::lemma_pow2_pos(count as nat);
    div_mod::lemma_small_mod(0, power2::pow2(count as nat));
}

/// Streams that begin alike have the same header where it lies in what they share.
pub proof fn lemma_header_prefix(s: Seq<u8>, t: Seq<u8>, bytes: int, position: int)
    requires
        0 <= position,
        0 <= bytes <= s.len(),
        bytes <= t.len(),
        s.take(bytes) == t.take(bytes),
        match header_at(s, position) {
            Header::Verbatim(len, bits) => position + bits <= 8 * bytes,
            Header::End => position + 2 <= 8 * bytes,
            _ => false,
        },
    ensures
        header_at(t, position) == header_at(s, position),
{
    let extra = number_at(s, position + 1, 2);
    lemma_number_bound(s, position + 1, 2);
    power2::lemma2_to64();
    lemma_number_prefix(s, t, bytes, position, 1);
    if header_at(s, position) is End {
        lemma_number_prefix(s, t, bytes, position + 1, 1);
    } else {
        lemma_number_prefix(s, t, bytes, position + 1, 2);
        lemma_number_prefix(s, t, bytes, position + 3, 16 + 4 * extra);
        lemma_number_prefix(s, t, bytes, position + 3 + 16 + 4 * extra - 4, 4);
        lemma_number_prefix(s, t, bytes, position + 3 + 16 + 4 * extra, 1);
    }
}

/// A byte of three at a byte boundary ends a stream.
pub proof fn lemma_three_ends(s: Seq<u8>)
    requires
        s.len() > 0,
        s.last() == 3,
    ensures
        content_from(s, 8 * (s.len() - 1)) == Some(Seq::<u8>::empty()),
{
    reveal(content_from);
    let position = 8 * (s.len() - 1);
    lemma_number_byte(s, s.len() - 1);
    assert(number_at(s, position, 8) == 3);
    assert(3int % 2 == 1 && 1int % 2 == 1 && 3int / 2 == 1 && 3int / 4 == 0);
    lemma_number_parts(s, position, 1, 7);
    lemma_number_parts(s, position + 1, 1, 6);
    lemma_number_parts(s, position, 2, 6);
    power2::lemma2_to64();
    assert(number_at(s, position, 1) == 1);
    assert(number_at(s, position + 1, 7) == 1);
    assert(number_at(s, position + 1, 1) == 1);
    assert(number_at(s, position + 2, 6) == 0);
    assert(boundary(position + 2) == position + 8);
}

/// The bits of a window decide what it is.
pub proof fn lemma_window_same(s: Seq<u8>, t: Seq<u8>)
    requires
        window_at(s, 0) matches Some((window, bits)) && forall|i: int|
            0 <= i < bits ==> #[trigger] bits::stream_bit(t, i) == bits::stream_bit(s, i),
    ensures
        window_at(t, 0) == window_at(s, 0),
{
    let bits = (window_at(s, 0)->0).1;
    lemma_number_same(s, t, 0, 1);
    if bits >= 4 {
        lemma_number_same(s, t, 1, 3);
    }
    if bits >= 7 {
        lemma_number_same(s, t, 4, 3);
    }
    if bits >= 14 {
        lemma_number_same(s, t, 7, 1);
        lemma_number_same(s, t, 8, 6);
    }
}

/// A stream whose first two bytes stand for a number announces the window that its bits
/// stand for.
pub proof fn lemma_window_value(s: Seq<u8>, value: int)
    requires
        s.len() >= 2,
        value == s[0] + 256 * s[1],
    ensures
        number_at(s, 0, 1) == value % 2,
        number_at(s, 1, 3) == value / 2 % 8,
        number_at(s, 4, 3) == value / 16 % 8,
        number_at(s, 7, 1) == value / 128 % 2,
        number_at(s, 8, 6) == value / 256 % 64,
{
    lemma_number_byte(s, 0);
    lemma_number_byte(s, 1);
    power2::lemma2_to64();
    lemma_number_split(s, 0, 8, 8);
    lemma_number_parts(s, 0, 1, 15);
    lemma_number_parts(s, 1, 3, 12);
    lemma_number_parts(s, 4, 3, 9);
    lemma_number_parts(s, 7, 1, 8);
    lemma_number_parts(s, 8, 6, 2);
    assert(value / 2 / 8 == value / 16);
    assert(value / 16 / 8 == value / 128);
    assert(value / 128 / 2 == value / 256);
}

/// A verbatim meta-block is read, then what follows it.
pub proof fn lemma_verbatim_step(s: Seq<u8>, position: int, len: int, bits: int)
    requires
        0 <= position,
        len > 0,
        bits > 0,
        header_at(s, position) == Header::Verbatim(len, bits),
        padded(s, position + bits),
        boundary(position + bits) / 8 + len <= s.len(),
    ensures
        ({
            let from = boundary(position + bits) / 8;
            content_from(s, position) == match content_from(s, 8 * (from + len)) {
                Some(rest) => Some(s.subrange(from, from + len) + rest),
                None => None,
            }
        }),
{
    reveal(content_from);
}

/// Two set bits behind some others end a stream, and leave those as they are.
pub proof fn lemma_two_bits_end(s: Seq<u8>, held: int, count: int)
    requires
        0 <= count,
        0 <= held < power2::pow2(count as nat),
        8 * s.len() == boundary(count + 2),
        number_at(s, 0, 8 * s.len() as int) == held + 3 * power2::pow2(count as nat),
    ensures
        content_from(s, count) == Some(Seq::<u8>::empty()),
        number_at(s, 0, count) == held,
{
    reveal(content_from);
    let left = 8 * s.len() - count;
    let unit = power2::pow2(count as nat) as int;
    lemma_number_parts(s, 0, count, left);
    lemma_number_parts(s, count, 1, left - 1);
    lemma_number_parts(s, count + 1, 1, left - 2);
    power2::lemma2_to64();
    mul::lemma_mul_is_commutative(3, unit);
    div_mod::lemma_fundamental_div_mod_converse(held + 3 * unit, unit, 3, held);
    assert(3int % 2 == 1 && 3int / 2 == 1 && 1int % 2 == 1 && 1int / 2 == 0);
}

/// Whole bytes before some others move their bits, and change no number.
pub proof fn lemma_number_shift(a: Seq<u8>, b: Seq<u8>, position: int, count: int)
    requires
        0 <= position,
        position + count <= 8 * b.len(),
    ensures
        number_at(a + b, 8 * a.len() + position, count) == number_at(b, position, count),
    decreases count,
{
    reveal(number_at);
    if count > 0 {
        lemma_number_shift(a, b, position, count - 1);
        let i = position + count - 1;
        let j = 8 * a.len() + i;
        assert(j / 8 == a.len() + i / 8 && j % 8 == i % 8);
        assert((a + b)[j / 8] == b[i / 8]);
        assert(bits::stream_bit(a + b, j) == bits::stream_bit(b, i));
    }
}

/// Whole bytes before a header that is complete move it, and change nothing of it.
proof fn lemma_header_shift(a: Seq<u8>, b: Seq<u8>, position: int)
    requires
        0 <= position,
        match header_at(b, position) {
            Header::End => position + 2 <= 8 * b.len(),
            Header::Verbatim(len, bits) => position + bits <= 8 * b.len(),
            Header::Metadata(len, bits) => position + bits <= 8 * b.len(),
            _ => false,
        },
    ensures
        header_at(a + b, 8 * a.len() + position) == header_at(b, position),
{
    let extra = number_at(b, position + 1, 2);
    lemma_number_bound(b, position + 1, 2);
    lemma_number_bound(b, position + 4, 2);
    power2::lemma2_to64();
    lemma_number_shift(a, b, position, 1);
    if header_at(b, position) is End {
        lemma_number_shift(a, b, position + 1, 1);
    } else {
        lemma_number_shift(a, b, position + 1, 2);
        if extra == 3 {
            lemma_number_shift(a, b, position + 3, 1);
            lemma_number_shift(a, b, position + 4, 2);
            let count = number_at(b, position + 4, 2);
            if count > 0 {
                lemma_number_shift(a, b, position + 6, 8 * count);
            }
        } else {
            lemma_number_shift(a, b, position + 3, 16 + 4 * extra);
            lemma_number_shift(a, b, position + 15 + 4 * extra, 4);
            lemma_number_shift(a, b, position + 19 + 4 * extra, 1);
        }
    }
}

/// What a stream that reads has at a position.
proof fn lemma_reads_as(s: Seq<u8>, position: int)
    requires
        content_from(s, position) is Some,
    ensures
        0 <= position < 8 * s.len(),
        match header_at(s, position) {
            Header::End => padded(s, position + 2) && boundary(position + 2) == 8 * s.len()
                && content_from(s, position) == Some(Seq::<u8>::empty()),
            Header::Verbatim(len, bits) => {
                let from = boundary(position + bits) / 8;
                &&& padded(s, position + bits)
                &&& len > 0
                &&& bits > 0
                &&& from + len <= s.len()
                &&& content_from(s, 8 * (from + len)) is Some
                &&& content_from(s, position) == Some(
                    s.subrange(from, from + len) + content_from(s, 8 * (from + len))->0,
                )
            },
            Header::Metadata(len, bits) => {
                let from = boundary(position + bits) / 8;
                &&& padded(s, position + bits)
                &&& len >= 0
                &&& bits > 0
                &&& from + len <= s.len()
                &&& content_from(s, 8 * (from + len)) is Some
                &&& content_from(s, position) == content_from(s, 8 * (from + len))
            },
            _ => false,
        },
{
    reveal(content_from);
}

/// The end of a stream is read.
proof fn lemma_end_step(s: Seq<u8>, position: int)
    requires
        0 <= position < 8 * s.len(),
        header_at(s, position) is End,
        padded(s, position + 2),
        boundary(position + 2) == 8 * s.len(),
    ensures
        content_from(s, position) == Some(Seq::<u8>::empty()),
{
    reveal(content_from);
}

/// Metadata is passed over.
proof fn lemma_metadata_step(s: Seq<u8>, position: int, len: int, bits: int)
    requires
        0 <= position,
        len >= 0,
        bits > 0,
        header_at(s, position) == Header::Metadata(len, bits),
        padded(s, position + bits),
        boundary(position + bits) / 8 + len <= s.len(),
    ensures
        content_from(s, position) == content_from(
            s,
            8 * (boundary(position + bits) / 8 + len),
        ),
{
    reveal(content_from);
}

/// Padding moves with whole bytes before it.
proof fn lemma_padded_shift(a: Seq<u8>, b: Seq<u8>, position: int)
    requires
        0 <= position,
        boundary(position) <= 8 * b.len(),
        padded(b, position),
    ensures
        padded(a + b, 8 * a.len() + position),
        boundary(8 * a.len() + position) == 8 * a.len() + boundary(position),
{
    lemma_number_shift(a, b, position, boundary(position) - position);
}

/// A stream reads the same behind whole bytes.
pub proof fn lemma_content_shift(a: Seq<u8>, b: Seq<u8>, position: int)
    requires
        content_from(b, position) is Some,
    ensures
        content_from(a + b, 8 * a.len() + position) == content_from(b, position),
    decreases 8 * b.len() - position,
{
    let whole = a + b;
    let at = 8 * a.len() + position;
    lemma_reads_as(b, position);
    match header_at(b, position) {
        Header::End => {
            lemma_header_shift(a, b, position);
            lemma_padded_shift(a, b, position + 2);
            lemma_end_step(whole, at);
        },
        Header::Verbatim(len, bits) => {
            let from = boundary(position + bits) / 8;
            lemma_header_shift(a, b, position);
            lemma_padded_shift(a, b, position + bits);
            lemma_content_shift(a, b, 8 * (from + len));
            lemma_verbatim_step(whole, at, len, bits);
            assert(whole.subrange(a.len() + from, a.len() + from + len) =~= b.subrange(
                from,
                from + len,
            ));
        },
        Header::Metadata(len, bits) => {
            let from = boundary(position + bits) / 8;
            lemma_header_shift(a, b, position);
            lemma_padded_shift(a, b, position + bits);
            lemma_content_shift(a, b, 8 * (from + len));
            lemma_metadata_step(whole, at, len, bits);
        },
        _ => {},
    }
}

} // verus!
