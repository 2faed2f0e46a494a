//! Exact match-length scan, with a vector bulk.
//!
//! Short matches dominate, so a scalar prefix runs first and vectors only come
//! in once a match has run past [`SCALAR_PREFIX_BYTES`]. The result is the same
//! length in every case, so nothing emitted depends on the backend.
use vstd::prelude::*;

use crate::backend;
use crate::backend::{equal_lanes, Backend, BackendKind};
use crate::math;

verus! {

/// Bytes compared with scalar 64-bit loads before the vector loop is entered.
pub const SCALAR_PREFIX_BYTES: usize = 16;

/// The first `k` bytes of two strings are the same.
pub open spec fn agree(left: Seq<u8>, right: Seq<u8>, k: int) -> bool {
    forall|i: int| 0 <= i < k ==> #[trigger] left[i] == right[i]
}

/// `k` is where two strings first differ, or `whole` where they agree that far.
pub open spec fn is_match_length(left: Seq<u8>, right: Seq<u8>, whole: int, k: int) -> bool {
    &&& 0 <= k <= whole
    &&& agree(left, right, k)
    &&& k < whole ==> left[k] != right[k]
}

/// There is only one match length.
pub proof fn lemma_match_length_unique(left: Seq<u8>, right: Seq<u8>, whole: int, j: int, k: int)
    requires
        is_match_length(left, right, whole, j),
        is_match_length(left, right, whole, k),
    ensures
        j == k,
{
    if j < k {
        assert(left[j] == right[j]);
    }
    if k < j {
        assert(left[k] == right[k]);
    }
}

/// The eight little-endian bytes at `offset` as a word, or zero past the end.
pub open spec fn word_at(data: Seq<u8>, offset: int) -> u64 {
    if 0 <= offset && offset + 8 <= data.len() {
        math::word_of(data.subrange(offset, offset + 8))
    } else {
        0
    }
}

/// Reads eight little-endian bytes at `offset`, or zero past the end.
pub fn load_u64_le(data: &[u8], offset: usize) -> (word: u64)
    ensures
        word == word_at(data@, offset as int),
{
    if data.len() < 8 || offset > data.len() - 8 {
        return 0;
    }
    let ghost b = data@.subrange(offset as int, offset + 8);
    let word: u64 = data[offset] as u64 | (data[offset + 1] as u64) << 8 | (data[offset + 2] as u64)
        << 16 | (data[offset + 3] as u64) << 24 | (data[offset + 4] as u64) << 32 | (data[offset
        + 5] as u64) << 40 | (data[offset + 6] as u64) << 48 | (data[offset + 7] as u64) << 56;
    assert(word == math::word_of(b));
    word
}

/// Compares two windows eight bytes at a time.
///
/// Returns the number of leading equal bytes, or the length of the whole-word
/// prefix when every word matched.
pub fn match_len_words(left: &[u8], right: &[u8]) -> (matched: usize)
    ensures
        ({
            let shorter = if left@.len() < right@.len() {
                left@.len()
            } else {
                right@.len()
            };
            is_match_length(left@, right@, shorter - shorter % 8, matched as int)
        }),
{
    let shorter: usize = if left.len() < right.len() {
        left.len()
    } else {
        right.len()
    };
    let whole: usize = shorter - shorter % 8;
    let mut matched: usize = 0;
    while matched < whole
        invariant
            matched <= whole,
            matched % 8 == 0,
            whole % 8 == 0,
            whole == shorter - shorter % 8,
            shorter <= left@.len(),
            shorter <= right@.len(),
            shorter == left@.len() || shorter == right@.len(),
            agree(left@, right@, matched as int),
        decreases whole - matched,
    {
        let x: u64 = load_u64_le(left, matched);
        let y: u64 = load_u64_le(right, matched);
        let difference: u64 = x ^ y;
        let ghost lb = left@.subrange(matched as int, matched + 8);
        let ghost rb = right@.subrange(matched as int, matched + 8);
        proof {
            math::lemma_word_of(lb);
            math::lemma_word_of(rb);
            math::lemma_xor_zero(x, y);
            assert forall|i: int| 0 <= i < 8 implies left@[matched + i] == #[trigger] math::word_byte(
                x,
                i,
            ) && right@[matched + i] == math::word_byte(y, i) by {
                assert(lb[i] == left@[matched + i]);
                assert(rb[i] == right@[matched + i]);
            }
        }
        if difference != 0 {
            let zeros: u32 = difference.trailing_zeros();
            proof {
                vstd::std_specs::bits::axiom_u64_trailing_zeros(difference);
                math::lemma_first_difference(x, y, zeros as u64);
                math::lemma_byte_of_bit(zeros);
                let k = zeros as int / 8;
                assert(left@[matched + k] != right@[matched + k]);
                assert forall|i: int| 0 <= i < matched + k implies #[trigger] left@[i] == right@[i] by {
                    if i >= matched {
                        let j = i - matched;
                        assert(math::word_byte(x, j) == math::word_byte(y, j));
                    }
                }
            }
            return matched + (zeros as usize >> 3);
        }
        proof {
            assert forall|i: int| 0 <= i < matched + 8 implies #[trigger] left@[i] == right@[i] by {
                if i >= matched {
                    let j = i - matched;
                    assert(left@[matched + j] == math::word_byte(x, j));
                    assert(right@[matched + j] == math::word_byte(y, j));
                }
            }
        }
        matched += 8;
    }
    matched
}

/// Bytes [`match_len_native_vectors`] advances per step on this backend.
///
/// The caller uses this to work out how many bytes a fully matching scan would
/// have reported, so it has to be the stride the scan really takes.
pub fn native_vector_stride(backend: Backend) -> (stride: usize)
    ensures
        stride == backend::stride_of(backend.of()),
        stride == 16 || stride == 32 || stride == 64,
{
    match backend.kind() {
        BackendKind::Avx2 => 32,
        BackendKind::Avx512 => 64,
        _ => 16,
    }
}

/// Compares two windows one vector at a time.
///
/// Returns the number of leading equal bytes, or the length of the whole-vector
/// prefix when every vector matched.
pub fn match_len_native_vectors(backend: Backend, left: &[u8], right: &[u8]) -> (matched: usize)
    ensures
        ({
            let shorter = if left@.len() < right@.len() {
                left@.len() as int
            } else {
                right@.len() as int
            };
            is_match_length(
                left@,
                right@,
                shorter - shorter % (backend::stride_of(backend.of()) as int),
                matched as int,
            )
        }),
{
    let shorter: usize = if left.len() < right.len() {
        left.len()
    } else {
        right.len()
    };
    let stride: usize = native_vector_stride(backend);
    let whole: usize = shorter - shorter % stride;
    let mut matched: usize = 0;
    let ghost mut steps: int = 0;
    proof {
        vstd::arithmetic::div_mod::lemma_fundamental_div_mod(shorter as int, stride as int);
    }
    while matched < whole
        invariant
            stride == backend::stride_of(backend.of()),
            stride == 16 || stride == 32 || stride == 64,
            matched == stride * steps,
            whole == stride * (shorter as int / stride as int),
            steps <= shorter as int / stride as int,
            whole == shorter - shorter % stride,
            shorter <= left@.len(),
            shorter <= right@.len(),
            shorter == left@.len() || shorter == right@.len(),
            agree(left@, right@, matched as int),
        decreases whole - matched,
    {
        proof {
            assert(steps < shorter as int / stride as int) by (nonlinear_arith)
                requires
                    stride * steps < stride * (shorter as int / stride as int),
                    stride > 0,
            ;
            assert(stride * (steps + 1) <= stride * (shorter as int / stride as int))
                by (nonlinear_arith)
                requires
                    steps + 1 <= shorter as int / stride as int,
                    stride > 0,
            ;
            assert(stride * (steps + 1) == stride * steps + stride) by (nonlinear_arith);
        }
        let l: &[u8] = &left[matched..matched + stride];
        let r: &[u8] = &right[matched..matched + stride];
        let mask: u64 = equal_lanes(backend, l, r);
        let ones: u32 = mask.trailing_ones();
        proof {
            vstd::std_specs::bits::axiom_u64_trailing_ones(mask);
            assert forall|i: int| 0 <= i < ones && i < stride implies #[trigger] left@[matched + i]
                == right@[matched + i] by {
                let j: u64 = i as u64;
                assert((mask >> j) & 1u64 == 1u64);
                assert(math::word_bit(mask, i));
                assert(l@[i] == left@[matched + i] && r@[i] == right@[matched + i]);
            }
            if ones < 64 {
                assert(!math::word_bit(mask, ones as int));
            }
            assert forall|i: int| 0 <= i < matched + ones && i < matched + stride implies #[trigger] left@[i]
                == right@[i] by {
                if i >= matched {
                    assert(left@[matched + (i - matched)] == right@[matched + (i - matched)]);
                }
            }
        }
        if (ones as usize) < stride {
            proof {
                assert(l@[ones as int] != r@[ones as int]);
            }
            return matched + ones as usize;
        }
        matched += stride;
        proof {
            steps = steps + 1;
        }
    }
    matched
}

/// Compares two windows byte by byte, stopping at the shorter one.
pub fn match_len_bytes(left: &[u8], right: &[u8]) -> (matched: usize)
    ensures
        ({
            let shorter = if left@.len() < right@.len() {
                left@.len() as int
            } else {
                right@.len() as int
            };
            is_match_length(left@, right@, shorter, matched as int)
        }),
{
    let mut matched: usize = 0;
    while matched < left.len() && matched < right.len() && left[matched] == right[matched]
        invariant
            matched <= left@.len(),
            matched <= right@.len(),
            agree(left@, right@, matched as int),
        decreases left@.len() - matched,
    {
        matched += 1;
    }
    matched
}

/// Returns how many bytes of `data[left..]` and `data[right..]` agree.
///
/// The comparison stops after `limit` bytes; neither side is read beyond it.
/// A window that does not fit inside `data` yields zero.
#[verifier::rlimit(60)]
pub fn find_match_length(
    backend: Backend,
    data: &[u8],
    left: usize,
    right: usize,
    limit: usize,
) -> (matched: usize)
    ensures
        left + limit <= data@.len() && right + limit <= data@.len() ==> is_match_length(
            data@.skip(left as int),
            data@.skip(right as int),
            limit as int,
            matched as int,
        ),
        left + limit > data@.len() || right + limit > data@.len() ==> matched == 0,
{
    if limit > data.len() || left > data.len() - limit || right > data.len() - limit {
        return 0;
    }
    let ghost ls = data@.skip(left as int);
    let ghost rs = data@.skip(right as int);

    // Cheap scalar prefix. Most matches are short, and entering a vector loop
    // for them costs more than it saves.
    let capped: usize = if limit < SCALAR_PREFIX_BYTES {
        limit
    } else {
        SCALAR_PREFIX_BYTES
    };
    let prefix: usize = capped - capped % 8;
    let mut matched: usize = match_len_words(
        &data[left..left + prefix],
        &data[right..right + prefix],
    );
    proof {
        lemma_stage(data@, left as int, right as int, 0, prefix as int, prefix as int, matched as int);
    }
    if matched < prefix {
        return matched;
    }
    // Native-width vectors over the bulk of a long match.
    let stride: usize = native_vector_stride(backend);
    let rest: usize = limit - matched;
    proof {
        vstd::arithmetic::div_mod::lemma_mod_decreases(rest as nat, stride as nat);
    }
    let whole_vectors: usize = rest - rest % stride;
    let vectored: usize = match_len_native_vectors(
        backend,
        &data[left + matched..left + limit],
        &data[right + matched..right + limit],
    );
    proof {
        lemma_stage(
            data@,
            left as int,
            right as int,
            matched as int,
            limit as int,
            whole_vectors as int,
            vectored as int,
        );
    }
    matched += vectored;
    if vectored < whole_vectors {
        return matched;
    }
    // Whole-word and single-byte tails.
    let left_over: usize = limit - matched;
    let whole_words: usize = left_over - left_over % 8;
    let tail: usize = match_len_words(
        &data[left + matched..left + matched + whole_words],
        &data[right + matched..right + matched + whole_words],
    );
    proof {
        lemma_stage(
            data@,
            left as int,
            right as int,
            matched as int,
            matched + whole_words,
            whole_words as int,
            tail as int,
        );
    }
    matched += tail;
    if tail < whole_words {
        return matched;
    }
    let last: usize = match_len_bytes(
        &data[left + matched..left + limit],
        &data[right + matched..right + limit],
    );
    proof {
        lemma_stage(
            data@,
            left as int,
            right as int,
            matched as int,
            limit as int,
            limit - matched,
            last as int,
        );
    }
    matched + last
}

/// One more stretch compared: agreement up to it and what was found in it.
proof fn lemma_stage(
    data: Seq<u8>,
    left: int,
    right: int,
    at: int,
    end: int,
    whole: int,
    k: int,
)
    requires
        0 <= left,
        0 <= right,
        0 <= at <= end,
        left + end <= data.len(),
        right + end <= data.len(),
        whole <= end - at,
        agree(data.skip(left), data.skip(right), at),
        is_match_length(
            data.subrange(left + at, left + end),
            data.subrange(right + at, right + end),
            whole,
            k,
        ),
    ensures
        agree(data.skip(left), data.skip(right), at + k),
        k < whole ==> data.skip(left)[at + k] != data.skip(right)[at + k],
{
    let l = data.subrange(left + at, left + end);
    let r = data.subrange(right + at, right + end);
    assert forall|i: int| 0 <= i < at + k implies #[trigger] data.skip(left)[i] == data.skip(right)[i] by {
        if i >= at {
            assert(l[i - at] == r[i - at]);
        }
    }
    if k < whole {
        assert(l[k] != r[k]);
    }
}

/// Two stretches of a length always have a match length.
pub proof fn lemma_match_length_exists(left: Seq<u8>, right: Seq<u8>, limit: int)
    requires
        0 <= limit,
    ensures
        exists|k: int| is_match_length(left, right, limit, k),
    decreases limit,
{
    if limit == 0 {
        assert(is_match_length(left, right, limit, 0));
    } else {
        lemma_match_length_exists(left, right, limit - 1);
        let shorter = limit - 1;
        let k = choose|k: int| is_match_length(left, right, shorter, k);
        if k == limit - 1 && left[k] == right[k] {
            assert(is_match_length(left, right, limit, limit));
        } else {
            assert(is_match_length(left, right, limit, k));
        }
    }
}

} // verus!
