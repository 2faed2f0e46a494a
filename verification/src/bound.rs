//! Upper bound on the size of a compressed stream.
use vstd::arithmetic::power2;
use vstd::prelude::*;

use crate::config;
use crate::config::{BrotliCompressError, BrotliResult, CompressParams, QualityLevel};
use crate::fast::constants::{OUTPUT_RESERVE_CONST, OUTPUT_SLACK};
use crate::greedy::params::{GreedyParams, GreedyQuality};

verus! {

/// The input an encoder consumes per step, as a power of two.
///
/// An encoder emits at most one meta-block per step, so this bounds how often the
/// cost of one is paid.
pub open spec fn step_bits(settings: config::Settings) -> int {
    match settings.quality {
        QualityLevel::Q3 => 14,
        QualityLevel::Q4 | QualityLevel::Q5 => match settings.lgblock {
            Some(lgblock) => lgblock.value() as int,
            None => 16,
        },
        _ => settings.lgwin.value() as int,
    }
}

/// How many steps an input takes.
pub open spec fn steps(settings: config::Settings, input_size: int) -> int {
    if input_size == 0 {
        1
    } else {
        (input_size - 1) / power2::pow2(step_bits(settings) as nat) as int + 1
    }
}

/// The bound: twice the input, the reserve of every step, and the stream header.
pub open spec fn bound_of(settings: config::Settings, input_size: int) -> int {
    2 * input_size + steps(settings, input_size) * (OUTPUT_RESERVE_CONST + OUTPUT_SLACK) + 2
}

/// Returns the input an encoder consumes per step, as a power of two.
fn fragment_bits(params: &CompressParams) -> (bits: usize)
    ensures
        bits == step_bits(params@),
        10 <= bits <= 62,
{
    match params.quality() {
        QualityLevel::Q3 => 14,
        QualityLevel::Q4 | QualityLevel::Q5 => match params.lgblock() {
            Some(lgblock) => usize::from(lgblock),
            None => 16,
        },
        _ => params.lgwin().bits() as usize,
    }
}

/// Returns an upper bound on the compressed size of `input_size` bytes.
///
/// A bound that does not fit is an error, rather than a number that bounds
/// nothing.
pub fn bound(params: &CompressParams, input_size: usize) -> (result: BrotliResult<usize>)
    ensures
        match result {
            Ok(bytes) => bytes == bound_of(params@, input_size as int),
            Err(error) => error == BrotliCompressError::BoundOverflow && bound_of(
                params@,
                input_size as int,
            ) > usize::MAX,
        },
{
    let bits: usize = fragment_bits(params);
    let fragments: usize = if input_size == 0 {
        1
    } else {
        let less: u64 = (input_size - 1) as u64;
        proof {
            vstd::bits::lemma_u64_shr_is_div(less, bits as u64);
            power2::lemma2_to64();
            power2::lemma_pow2_strictly_increases(0, bits as nat);
            vstd::arithmetic::div_mod::lemma_div_is_ordered_by_denominator(
                less as int,
                1,
                power2::pow2(bits as nat) as int,
            );
        }
        (less >> (bits as u64)) as usize + 1
    };
    assert(fragments == steps(params@, input_size as int));
    let reserve: usize = OUTPUT_RESERVE_CONST + OUTPUT_SLACK;
    proof {
        assert(fragments * reserve >= 0) by (nonlinear_arith)
            requires
                fragments >= 0,
                reserve >= 0,
        ;
    }
    match fragments.checked_mul(reserve) {
        None => Err(BrotliCompressError::BoundOverflow),
        Some(overhead) => match input_size.checked_mul(2) {
            None => Err(BrotliCompressError::BoundOverflow),
            Some(payload) => match payload.checked_add(overhead) {
                None => Err(BrotliCompressError::BoundOverflow),
                Some(total) => match total.checked_add(2) {
                    None => Err(BrotliCompressError::BoundOverflow),
                    Some(total) => Ok(total),
                },
            },
        },
    }
}

/// A bound covers the input, and grows with it.
pub proof fn lemma_bound_covers(settings: config::Settings, smaller: int, input_size: int)
    requires
        0 <= smaller <= input_size,
    ensures
        bound_of(settings, input_size) > input_size,
        bound_of(settings, smaller) <= bound_of(settings, input_size),
{
    let step = power2::pow2(step_bits(settings) as nat) as int;
    power2::lemma_pow2_pos(step_bits(settings) as nat);
    if smaller > 0 {
        vstd::arithmetic::div_mod::lemma_div_is_ordered(smaller - 1, input_size - 1, step);
        vstd::arithmetic::div_mod::lemma_div_pos_is_pos(smaller - 1, step);
    } else if input_size > 0 {
        vstd::arithmetic::div_mod::lemma_div_pos_is_pos(input_size - 1, step);
    }
}

/// The steps cover the input, with none to spare: one step fewer would not, unless there is
/// only one. Each is paid for alike, beside twice the input and the two bytes of the stream's
/// header.
pub proof fn lemma_steps_cover(settings: config::Settings, input_size: int)
    requires
        0 <= input_size,
    ensures
        ({
            let step = power2::pow2(step_bits(settings) as nat) as int;
            let taken = steps(settings, input_size);
            &&& taken >= 1
            &&& taken * step >= input_size
            &&& taken > 1 ==> (taken - 1) * step < input_size
            &&& bound_of(settings, input_size) == 2 * input_size + taken * (bound_of(settings, 0)
                - 2) + 2
        }),
{
    let step = power2::pow2(step_bits(settings) as nat) as int;
    power2::lemma_pow2_pos(step_bits(settings) as nat);
    if input_size > 0 {
        let less = input_size - 1;
        vstd::arithmetic::div_mod::lemma_fundamental_div_mod(less, step);
        vstd::arithmetic::div_mod::lemma_div_pos_is_pos(less, step);
        let whole = less / step;
        assert((whole + 1) * step == step * whole + step && whole * step == step * whole)
            by (nonlinear_arith);
    } else {
        assert(1 * step == step);
    }
}

/// The greedy encoders take in a block of their own at a step.
pub proof fn lemma_step_is_block(settings: config::Settings, quality: GreedyQuality, size_hint: usize)
    requires
        settings.quality is Q3 ==> quality is Q3,
        settings.quality is Q4 ==> quality is Q4,
        settings.quality is Q5 ==> quality is Q5,
        settings.quality is Q3 || settings.quality is Q4 || settings.quality is Q5,
        settings.lgblock matches Some(bits) ==> 16 <= bits.value() <= 24,
    ensures
        GreedyParams::resolved(settings, quality, size_hint).lgblock == step_bits(settings),
{
}

} // verus!
