//! Integer logarithms.
use vstd::arithmetic::power2;
use vstd::bits;
use vstd::prelude::*;

use crate::math;

verus! {

/// `r` is the position of the highest set bit of `value`.
pub open spec fn is_log2_floor(value: int, r: int) -> bool {
    &&& 0 <= r
    &&& power2::pow2(r as nat) <= value
    &&& value < power2::pow2((r + 1) as nat)
}

/// A number has one logarithm.
pub proof fn lemma_log2_unique(value: int, a: int, b: int)
    requires
        is_log2_floor(value, a),
        is_log2_floor(value, b),
    ensures
        a == b,
{
    if a < b {
        if a + 1 < b {
            power2::lemma_pow2_strictly_increases((a + 1) as nat, b as nat);
        }
    } else if b < a {
        if b + 1 < a {
            power2::lemma_pow2_strictly_increases((b + 1) as nat, a as nat);
        }
    }
}

/// A positive number has a logarithm.
pub proof fn lemma_log2_exists(value: int)
    requires
        value >= 1,
    ensures
        exists|r: int| is_log2_floor(value, r),
    decreases value,
{
    power2::lemma2_to64();
    if value == 1 {
        assert(is_log2_floor(1, 0));
    } else {
        lemma_log2_exists(value / 2);
        let half = value / 2;
        let r = choose|r: int| is_log2_floor(half, r);
        power2::lemma_pow2_unfold((r + 1) as nat);
        power2::lemma_pow2_unfold((r + 2) as nat);
        assert(is_log2_floor(value, r + 1));
    }
}

/// Returns `floor(log2(value))` for a non-zero `value`.
pub fn log2_floor_non_zero(value: usize) -> (r: u32)
    requires
        value > 0,
    ensures
        is_log2_floor(value as int, r as int),
        r < 64,
{
    let word: u64 = value as u64;
    let zeros: u32 = word.leading_zeros();
    proof {
        vstd::std_specs::bits::axiom_u64_leading_zeros(word);
        let r: u64 = (63 - zeros) as u64;
        assert(zeros < 64);
        assert((word >> r) & 1u64 != 0u64);
        bits::lemma_u64_shr_is_div(word, r);
        power2::lemma_pow2_pos(r as nat);
        if word < power2::pow2(r as nat) {
            vstd::arithmetic::div_mod::lemma_basic_div(word as int, power2::pow2(r as nat) as int);
            math::lemma_zero_has_no_bit();
        }
        if r < 63 {
            let up: u64 = (r + 1) as u64;
            assert(word >> up == 0);
            bits::lemma_u64_shr_is_div(word, up);
            power2::lemma_pow2_pos((r + 1) as nat);
            vstd::arithmetic::div_mod::lemma_fundamental_div_mod(
                word as int,
                power2::pow2((r + 1) as nat) as int,
            );
            vstd::arithmetic::div_mod::lemma_mod_bound(
                word as int,
                power2::pow2((r + 1) as nat) as int,
            );
        } else {
            power2::lemma2_to64();
        }
    }
    63 - zeros
}

/// Returns the smallest power of two that is at least `value`.
pub fn next_power_of_two(value: usize) -> (size: usize)
    requires
        value <= usize::MAX / 2 + 1,
    ensures
        math::is_pow2(size as int),
        value <= size,
        size == 1 || size < 2 * value,
{
    let mut size: usize = 1;
    let ghost mut k: nat = 0;
    proof {
        power2::lemma2_to64();
        assert(1 == power2::pow2(0));
    }
    while size < value
        invariant
            value <= usize::MAX / 2 + 1,
            size == power2::pow2(k),
            size == 1 || size < 2 * value,
            1 <= size,
        decreases 2 * value - size,
    {
        proof {
            power2::lemma_pow2_unfold(k + 1);
            k = k + 1;
        }
        size = size * 2;
    }
    assert(math::is_pow2(size as int));
    size
}

} // verus!
