//! Meta-block headers and verbatim meta-blocks of the fast encoders.
use vstd::arithmetic::power2;
use vstd::prelude::*;

use crate::math;
use crate::shared::bits;
use crate::shared::bits::BitWriter;
use crate::shared::reader;

verus! {

/// Longest meta-block a header can announce.
pub const MAX_META_BLOCK: usize = 0x100_0000;

/// How many nibbles announce a length.
pub open spec fn header_nibbles(len: int) -> int {
    if len <= 0x1_0000 {
        4
    } else if len <= 0x10_0000 {
        5
    } else {
        6
    }
}

/// How many bits a header takes.
pub open spec fn header_bits(len: int) -> int {
    4 + 4 * header_nibbles(len)
}

/// What a header leaves: not the last meta-block, the number of nibbles, the
/// length less one, and whether the bytes follow verbatim.
pub open spec fn with_header(s: Seq<u8>, position: int, len: int, raw: bool) -> Seq<u8> {
    let nibbles = header_nibbles(len);
    let opened = bits::written(s, position, 0);
    let counted = bits::written(opened, position + 1, (nibbles - 4) as u64);
    let sized = bits::written(counted, position + 3, (len - 1) as u64);
    bits::written(
        sized,
        position + 3 + 4 * nibbles,
        if raw {
            1
        } else {
            0
        },
    )
}

/// A number below a power of two has no bit from that power on.
proof fn lemma_fits(x: u64, n: u64)
    requires
        n < 64,
        x < power2::pow2(n as nat),
    ensures
        x >> n == 0,
{
    vstd::bits::lemma_u64_shr_is_div(x, n);
    vstd::arithmetic::div_mod::lemma_basic_div(x as int, power2::pow2(n as nat) as int);
}

/// Writes the header of a meta-block.
pub fn store_meta_block_header(len: usize, is_uncompressed: bool, w: &mut BitWriter)
    requires
        1 <= len <= MAX_META_BLOCK,
        old(w).position + 64 <= usize::MAX,
    ensures
        final(w).position == old(w).position + header_bits(len as int),
        final(final(w).storage)@ == final(old(w).storage)@,
        final(w).storage@.len() == old(w).storage@.len(),
        old(w).overflowed ==> final(w).overflowed,
        !old(w).overflowed && old(w).position / 8 + 12 <= old(w).storage@.len()
            ==> !final(w).overflowed,
        !final(w).overflowed ==> final(w).storage@ == with_header(
            old(w).storage@,
            old(w).position as int,
            len as int,
            is_uncompressed,
        ),
{
    let nibbles: u32 = if len <= 0x1_0000 {
        4
    } else if len <= 0x10_0000 {
        5
    } else {
        6
    };
    proof {
        power2::lemma2_to64();
        lemma_fits(0, 1);
        lemma_fits((nibbles - 4) as u64, 2);
        lemma_fits((len - 1) as u64, (4 * nibbles) as u64);
        lemma_fits(1, 1);
    }
    w.write(1, 0);
    w.write(2, (nibbles - 4) as u64);
    w.write(nibbles * 4, (len - 1) as u64);
    w.write(
        1,
        if is_uncompressed {
            1
        } else {
            0
        },
    );
}

/// The next byte boundary.
pub open spec fn aligned(position: int) -> int {
    (position + 7) / 8 * 8
}

/// What stands up to the end of a meta-block whose bytes follow verbatim: the stream
/// before it, its header padded to a whole byte, and the bytes.
pub open spec fn with_verbatim(s: Seq<u8>, position: int, data: Seq<u8>) -> Seq<u8> {
    let from = aligned(position + header_bits(data.len() as int)) / 8;
    with_header(s, position, data.len() as int, true).take(from) + data
}

/// Rewinds to `start_position` and writes `data[begin..end]` verbatim as a
/// meta-block of its own.
pub fn emit_uncompressed_meta_block(
    data: &[u8],
    begin: usize,
    end: usize,
    start_position: usize,
    w: &mut BitWriter,
)
    requires
        begin < end <= data@.len(),
        end - begin <= MAX_META_BLOCK,
        start_position + 8 * (end - begin) + 128 <= usize::MAX,
    ensures
        ({
            let from = aligned(start_position + header_bits(end - begin));
            &&& final(w).position == from + 8 * (end - begin)
            &&& !final(w).overflowed ==> {
                &&& from / 8 + (end - begin) < final(w).storage@.len()
                &&& final(w).storage@.take(from / 8 + (end - begin)) == with_verbatim(
                    bits::rewound(old(w).storage@, start_position as int),
                    start_position as int,
                    data@.subrange(begin as int, end as int),
                )
                &&& final(w).storage@[from / 8 + (end - begin)] == 0
            }
        }),
        !old(w).overflowed && start_position / 8 + (end - begin) + 12 <= old(w).storage@.len()
            ==> !final(w).overflowed,
        final(final(w).storage)@ == final(old(w).storage)@,
        final(w).storage@.len() == old(w).storage@.len(),
        old(w).overflowed ==> final(w).overflowed,
{
    w.rewind(start_position);
    store_meta_block_header(end - begin, true, w);
    w.align();
    let ghost from = w.position as int / 8;
    let ghost headed = w.storage@;
    w.write_bytes(&data[begin..end]);
    proof {
        if !w.overflowed {
            assert(w.storage@.take(from + (end - begin)) =~= headed.take(from) + data@.subrange(
                begin as int,
                end as int,
            ));
        }
    }
}

/// A fragment whose encoding is longer than the bytes themselves is rewritten.
pub open spec fn too_long(bits_used: int, len: int) -> bool {
    bits_used > 31 + 8 * len
}

/// What the two bits that end a stream leave.
pub open spec fn closed(s: Seq<u8>, position: int) -> Seq<u8> {
    bits::written(bits::written(s, position, 1), position + 1, 1)
}

/// The two closing bits in a clear byte.
proof fn lemma_closed_byte()
    ensures
        math::word_byte(bits::merged_word(0, 0, 1), 0) == 1,
        math::word_byte(bits::merged_word(1, 1, 1), 0) == 3,
{
    math::lemma_closing_bits();
}

/// Ends a fragment that was encoded from `initial_position` on: rewrites it
/// verbatim where encoding made it larger, and closes the stream after the last.
///
/// Returns whether the fragment was rewritten.
pub fn finish_fragment(data: &[u8], is_last: bool, initial_position: usize, w: &mut BitWriter) -> (rewritten:
    bool)
    requires
        data@.len() <= MAX_META_BLOCK,
        initial_position <= old(w).position,
        old(w).position + 8 * data@.len() + 256 <= usize::MAX,
    ensures
        rewritten == (data@.len() > 0 && too_long(
            old(w).position - initial_position,
            data@.len() as int,
        )),
        ({
            let body = if rewritten {
                aligned(initial_position + header_bits(data@.len() as int)) + 8 * data@.len()
            } else {
                old(w).position as int
            };
            final(w).position == if is_last {
                aligned(body + 2)
            } else {
                body
            }
        }),
        !rewritten && !is_last ==> final(w).storage@ == old(w).storage@ && final(w).overflowed
            == old(w).overflowed,
        !rewritten && is_last && !final(w).overflowed ==> final(w).storage@ == closed(
            old(w).storage@,
            old(w).position as int,
        ),
        !rewritten && is_last && !old(w).overflowed && old(w).position / 8 + 16
            <= old(w).storage@.len() ==> !final(w).overflowed,
        rewritten && !old(w).overflowed && initial_position / 8 + data@.len() + 24
            <= old(w).storage@.len() ==> !final(w).overflowed,
        rewritten && !final(w).overflowed ==> final(w).position / 8 <= final(w).storage@.len()
            && final(w).storage@.take(final(w).position as int / 8) == with_verbatim(
            bits::rewound(old(w).storage@, initial_position as int),
            initial_position as int,
            data@,
        ) + if is_last {
            seq![3u8]
        } else {
            Seq::empty()
        },
        final(final(w).storage)@ == final(old(w).storage)@,
        final(w).storage@.len() == old(w).storage@.len(),
        old(w).overflowed ==> final(w).overflowed,
{
    let used: usize = w.position() - initial_position;
    let rewritten: bool = data.len() > 0 && used > 31 + 8 * data.len();
    if rewritten {
        emit_uncompressed_meta_block(data, 0, data.len(), initial_position, w);
        assert(data@.subrange(0, data@.len() as int) =~= data@);
    }
    let ghost body = w.storage@;
    let ghost at = w.position as int;
    if is_last {
        proof {
            power2::lemma2_to64();
            lemma_fits(1, 1);
        }
        w.write(1, 1);
        w.write(1, 1);
        w.align();
        proof {
            if rewritten && !w.overflowed {
                let whole = at / 8;
                math::lemma_closing_bits();
                assert(at % 8 == 0);
                let once = bits::written(body, at, 1);
                assert(w.storage@ == bits::written(once, at + 1, 1));
                assert((at + 1) / 8 == whole && (at + 1) % 8 == 1);
                lemma_closed_byte();
                assert(once[whole] == 1);
                assert(w.storage@[whole] == 3);
                assert(w.storage@.take(whole + 1) =~= body.take(whole) + seq![3u8]);
            }
        }
    }
    proof {
        if rewritten && !is_last && !w.overflowed {
            assert(w.storage@.take(at / 8) + Seq::<u8>::empty() =~= w.storage@.take(at / 8));
        }
    }
    rewritten
}

/// A header reads back: whatever stands before it stays, it is not the last one, it gives
/// the length, and it says that the bytes follow verbatim exactly if they do.
pub proof fn lemma_header_reads_back(s: Seq<u8>, position: int, len: int, raw: bool)
    requires
        0 <= position,
        position / 8 + 12 <= s.len(),
        1 <= len <= MAX_META_BLOCK,
        reader::clean(s, position),
    ensures
        ({
            let after = with_header(s, position, len, raw);
            let end = position + header_bits(len);
            &&& after.len() == s.len()
            &&& reader::header_at(after, position) == if raw {
                reader::Header::Verbatim(len, end - position)
            } else {
                reader::Header::Compressed(len, end - position)
            }
            &&& reader::clean(after, end)
            &&& forall|i: int|
                0 <= i < position ==> #[trigger] bits::stream_bit(after, i) == bits::stream_bit(
                    s,
                    i,
                )
        }),
{
    let nibbles = header_nibbles(len);
    let wide: u32 = (4 * nibbles) as u32;
    let mark: u64 = if raw {
        1
    } else {
        0
    };
    power2::lemma2_to64();
    let p1 = position + 1;
    let p3 = position + 3;
    let p4 = position + 3 + 4 * nibbles;
    let s1 = bits::written(s, position, 0);
    reader::lemma_field_reads_back(s, position, 1, 0);
    let s2 = bits::written(s1, p1, (nibbles - 4) as u64);
    reader::lemma_field_reads_back(s1, p1, 2, (nibbles - 4) as u64);
    let s3 = bits::written(s2, p3, (len - 1) as u64);
    reader::lemma_field_reads_back(s2, p3, wide, (len - 1) as u64);
    let s4 = with_header(s, position, len, raw);
    assert(s4 == bits::written(s3, p4, mark));
    reader::lemma_field_reads_back(s3, p4, 1, mark);
    reader::lemma_number_same(s1, s2, position, 1);
    reader::lemma_number_same(s2, s3, position, 1);
    reader::lemma_number_same(s3, s4, position, 1);
    reader::lemma_number_same(s2, s3, p1, 2);
    reader::lemma_number_same(s3, s4, p1, 2);
    reader::lemma_number_same(s3, s4, p3, 4 * nibbles);
    reader::lemma_number_parts(s4, p3, 4 * nibbles - 4, 4);
    assert forall|i: int| 0 <= i < position implies #[trigger] bits::stream_bit(s4, i)
        == bits::stream_bit(s, i) by {
        assert(bits::stream_bit(s1, i) == bits::stream_bit(s, i));
        assert(bits::stream_bit(s2, i) == bits::stream_bit(s1, i));
        assert(bits::stream_bit(s3, i) == bits::stream_bit(s2, i));
    }
    if nibbles == 5 {
        assert((len - 1) / 0x1_0000 > 0);
    } else if nibbles == 6 {
        assert((len - 1) / 0x10_0000 > 0);
    }
}

/// A verbatim meta-block reads back: a stream that goes on behind it is read as its
/// bytes and what follows, and what stands before it stays.
pub proof fn lemma_verbatim_block_reads_back(
    s: Seq<u8>,
    position: int,
    data: Seq<u8>,
    rest: Seq<u8>,
)
    requires
        0 <= position,
        position / 8 + 12 <= s.len(),
        1 <= data.len() <= MAX_META_BLOCK,
        reader::clean(s, position),
    ensures
        ({
            let made = with_verbatim(s, position, data);
            let whole = made + rest;
            &&& reader::content_from(whole, position) == match reader::content_from(
                whole,
                8 * made.len() as int,
            ) {
                Some(after) => Some(data + after),
                None => None,
            }
            &&& forall|i: int|
                0 <= i < position ==> #[trigger] bits::stream_bit(whole, i) == bits::stream_bit(
                    s,
                    i,
                )
        }),
{
    let len = data.len() as int;
    let headed = with_header(s, position, len, true);
    let end = position + header_bits(len);
    let from = aligned(end) / 8;
    let whole = with_verbatim(s, position, data) + rest;
    lemma_header_reads_back(s, position, len, true);
    assert(whole.take(from) =~= headed.take(from));
    reader::lemma_header_prefix(headed, whole, from, position);
    reader::lemma_clean_is_padded(headed, end);
    reader::lemma_number_prefix(headed, whole, from, end, reader::boundary(end) - end);
    reader::lemma_verbatim_step(whole, position, len, header_bits(len));
    assert(whole.subrange(from, from + len) =~= data);
    assert(8 * (from + len) == 8 * with_verbatim(s, position, data).len());
    assert forall|i: int| 0 <= i < position implies #[trigger] bits::stream_bit(whole, i)
        == bits::stream_bit(s, i) by {
        assert(bits::stream_bit(headed, i) == bits::stream_bit(s, i));
        assert(whole.take(from)[i / 8] == headed.take(from)[i / 8]);
    }
}

/// A stream that is a window, one verbatim meta-block and its end reads back to the
/// window and the bytes.
pub proof fn lemma_stored_stream_reads_back(s: Seq<u8>, window: int, bits: int, data: Seq<u8>)
    requires
        reader::window_at(s, 0) == Some((window, bits)),
        12 + bits / 8 <= s.len(),
        1 <= data.len() <= MAX_META_BLOCK,
        reader::clean(s, bits),
    ensures
        reader::content_of(with_verbatim(s, bits, data) + seq![3u8]) == Some((window, data)),
{
    let made = with_verbatim(s, bits, data);
    let whole = made + seq![3u8];
    lemma_verbatim_block_reads_back(s, bits, data, seq![3u8]);
    reader::lemma_three_ends(whole);
    reader::lemma_window_same(s, whole);
    assert(data + Seq::<u8>::empty() =~= data);
}

/// The two bits that end a stream read back as its end, and leave what is before.
pub proof fn lemma_closing_reads_back(s: Seq<u8>, position: int)
    requires
        0 <= position,
        position / 8 + 12 <= s.len(),
        reader::clean(s, position),
    ensures
        reader::header_at(closed(s, position), position) is End,
        reader::padded(closed(s, position), position + 2),
        forall|i: int|
            0 <= i < position ==> #[trigger] bits::stream_bit(closed(s, position), i)
                == bits::stream_bit(s, i),
{
    power2::lemma2_to64();
    let s1 = bits::written(s, position, 1);
    let s2 = closed(s, position);
    reader::lemma_field_reads_back(s, position, 1, 1);
    reader::lemma_field_reads_back(s1, position + 1, 1, 1);
    reader::lemma_number_same(s1, s2, position, 1);
    reader::lemma_clean_is_padded(s2, position + 2);
    assert forall|i: int| 0 <= i < position implies #[trigger] bits::stream_bit(s2, i)
        == bits::stream_bit(s, i) by {
        assert(bits::stream_bit(s1, i) == bits::stream_bit(s, i));
    }
}

} // verus!
