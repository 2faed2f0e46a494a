//! Command codes: how insert and copy lengths are written.
use vstd::arithmetic::{div_mod, power2};
use vstd::prelude::*;

use crate::greedy::tables::{COPY_BASE, INS_BASE, NUM_INS_COPY_CODES};
use crate::math;
use crate::shared::distance;
use crate::shared::fast_log::log2_floor_non_zero;

verus! {

/// Number of distance codes that refer to cached distances.
pub const NUM_DISTANCE_SHORT_CODES: usize = 16;

/// Where each block of sixty-four command codes starts, by the eighths its
/// insert and copy codes lie in.
pub const COMMAND_CELLS: [usize; 9] = [128, 192, 384, 256, 320, 512, 448, 576, 640];

/// A length lies in the range of a code.
pub open spec fn codes(base: Seq<u32>, len: int, code: int) -> bool {
    &&& 0 <= code < NUM_INS_COPY_CODES
    &&& base[code] <= len
    &&& code + 1 < NUM_INS_COPY_CODES ==> len < base[code + 1]
}

/// Returns the last code whose range starts no later than `len`.
fn code_of(base: &[u32; NUM_INS_COPY_CODES], len: usize) -> (code: usize)
    requires
        base@[0] <= len,
    ensures
        codes(base@, len as int, code as int),
{
    let mut code: usize = 0;
    while code + 1 < NUM_INS_COPY_CODES && base[code + 1] as usize <= len
        invariant
            code < NUM_INS_COPY_CODES,
            base@[code as int] <= len,
        decreases NUM_INS_COPY_CODES - code,
    {
        code += 1;
    }
    code
}

/// Returns the code of an insert length.
pub fn insert_length_code(len: usize) -> (code: usize)
    ensures
        codes(INS_BASE@, len as int, code as int),
        code == insert_code(len as int),
{
    let code: usize = code_of(&INS_BASE, len);
    proof {
        lemma_insert_code(len as int, code as int);
    }
    code
}

/// Returns the code of a copy length.
pub fn copy_length_code(len: usize) -> (code: usize)
    requires
        len >= 2,
    ensures
        codes(COPY_BASE@, len as int, code as int),
        code == copy_code(len as int),
{
    let code: usize = code_of(&COPY_BASE, len);
    proof {
        lemma_copy_code(len as int, code as int);
    }
    code
}

/// The code of an insert length.
pub open spec fn insert_code(len: int) -> int {
    choose|code: int| codes(INS_BASE@, len, code)
}

/// The code of a copy length.
pub open spec fn copy_code(len: int) -> int {
    choose|code: int| codes(COPY_BASE@, len, code)
}

/// A length has one code.
proof fn lemma_one_code(base: Seq<u32>, len: int, left: int, right: int)
    requires
        forall|i: int, j: int| 0 <= i < j < NUM_INS_COPY_CODES ==> base[i] < base[j],
        codes(base, len, left),
        codes(base, len, right),
    ensures
        left == right,
{
    if left < right && left + 1 < right {
        assert(base[left + 1] < base[right]);
    }
    if right < left && right + 1 < left {
        assert(base[right + 1] < base[left]);
    }
}

/// The code of an insert length is the one whose range it lies in.
pub proof fn lemma_insert_code(len: int, code: int)
    requires
        codes(INS_BASE@, len, code),
    ensures
        insert_code(len) == code,
{
    lemma_one_code(INS_BASE@, len, insert_code(len), code);
}

/// The code of a copy length is the one whose range it lies in.
pub proof fn lemma_copy_code(len: int, code: int)
    requires
        codes(COPY_BASE@, len, code),
    ensures
        copy_code(len) == code,
{
    lemma_one_code(COPY_BASE@, len, copy_code(len), code);
}

/// The command code of an insert code and a copy code.
pub open spec fn combined(insert_code: int, copy_code: int, last_distance: bool) -> int {
    let low = copy_code % 8 + insert_code % 8 * 8;
    if last_distance && insert_code < 8 && copy_code < 16 {
        low + copy_code / 8 * 64
    } else {
        COMMAND_CELLS@[copy_code / 8 + 3 * (insert_code / 8)] + low
    }
}

/// Combines an insert code and a copy code.
///
/// Short codes with the last distance have command codes of their own, which
/// carry no distance at all: those below 128.
pub fn combine_length_codes(insert_code: usize, copy_code: usize, last_distance: bool) -> (code: usize)
    requires
        insert_code < NUM_INS_COPY_CODES,
        copy_code < NUM_INS_COPY_CODES,
    ensures
        code == combined(insert_code as int, copy_code as int, last_distance),
        code < 704,
        code < 128 <==> last_distance && insert_code < 8 && copy_code < 16,
{
    let low: usize = copy_code % 8 + insert_code % 8 * 8;
    if last_distance && insert_code < 8 && copy_code < 16 {
        low + copy_code / 8 * 64
    } else {
        COMMAND_CELLS[copy_code / 8 + 3 * (insert_code / 8)] + low
    }
}

/// How a distance code is written: a symbol and extra bits.
#[derive(Copy, Clone, Debug, PartialEq, Eq, Structural)]
pub struct DistanceSymbol {
    /// The symbol.
    pub symbol: usize,
    /// How many extra bits follow.
    pub num_extra: u32,
    /// Their value.
    pub extra: usize,
}

impl DistanceSymbol {
    /// The distance code a symbol and its extra bits stand for.
    ///
    /// Past the direct codes a symbol holds the low bits of the distance, and
    /// which half of which power of two the rest lies in.
    pub open spec fn code(&self, num_direct: int, postfix_bits: int) -> int {
        let first = NUM_DISTANCE_SHORT_CODES + num_direct;
        if self.symbol < first {
            self.symbol as int
        } else {
            let stride = power2::pow2(postfix_bits as nat) as int;
            let low = (self.symbol - first) % stride;
            let half = (self.symbol - first) / stride;
            let offset = (2 + half % 2) * power2::pow2(self.num_extra as nat) - 4;
            first + (offset + self.extra) * stride + low
        }
    }

    /// The extra bits are the ones the symbol asks for.
    pub open spec fn wf(&self, num_direct: int, postfix_bits: int) -> bool {
        let first = NUM_DISTANCE_SHORT_CODES + num_direct;
        if self.symbol < first {
            self.num_extra == 0 && self.extra == 0
        } else {
            let stride = power2::pow2(postfix_bits as nat) as int;
            &&& self.num_extra == 1 + (self.symbol - first) / stride / 2
            &&& self.extra < power2::pow2(self.num_extra as nat)
        }
    }
}

/// A distance code is one that up to twenty-four extra bits can spell.
pub open spec fn in_alphabet(code: int, num_direct: int, postfix_bits: int) -> bool {
    code < NUM_DISTANCE_SHORT_CODES + num_direct + 0x3FF_FFFC * power2::pow2(postfix_bits as nat)
}

/// A symbol and its extra bits spell a distance code.
pub open spec fn spells(out: DistanceSymbol, code: int, num_direct: int, postfix_bits: int) -> bool {
    out.wf(num_direct, postfix_bits) && out.code(num_direct, postfix_bits) == code
}

/// The symbol and extra bits of a distance code.
pub open spec fn spelled(code: int, num_direct: int, postfix_bits: int) -> DistanceSymbol {
    choose|out: DistanceSymbol| spells(out, code, num_direct, postfix_bits)
}

/// What a symbol past the direct ones stands for, apart from its low bits.
proof fn lemma_symbol_parts(out: DistanceSymbol, num_direct: int, postfix_bits: int)
    requires
        0 <= num_direct,
        0 <= postfix_bits <= 3,
        out.wf(num_direct, postfix_bits),
        out.symbol >= NUM_DISTANCE_SHORT_CODES + num_direct,
    ensures
        ({
            let first = NUM_DISTANCE_SHORT_CODES + num_direct;
            let stride = power2::pow2(postfix_bits as nat) as int;
            let rest = out.symbol - first;
            let width = power2::pow2(out.num_extra as nat) as int;
            let high = (2 + rest / stride % 2) * width + out.extra;
            &&& stride > 0
            &&& width >= 2
            &&& 2 * width <= high < 4 * width
            &&& high >= 4
            &&& out.code(num_direct, postfix_bits) == first + (high - 4) * stride + rest % stride
            &&& out.num_extra == 1 + rest / stride / 2
        }),
{
    let first = NUM_DISTANCE_SHORT_CODES + num_direct;
    let stride = power2::pow2(postfix_bits as nat) as int;
    let rest = out.symbol - first;
    let upper = rest / stride % 2;
    power2::lemma_pow2_pos(postfix_bits as nat);
    div_mod::lemma_div_pos_is_pos(rest, stride);
    power2::lemma2_to64();
    if out.num_extra > 1 {
        power2::lemma_pow2_strictly_increases(1, out.num_extra as nat);
    }
    let width = power2::pow2(out.num_extra as nat) as int;
    assert((2 + upper) * width == if upper == 1 {
        3 * width
    } else {
        2 * width
    }) by (nonlinear_arith)
        requires
            upper == 0 || upper == 1,
    ;
}

/// Powers of two that hold a number between themselves and twice themselves are the
/// same.
proof fn lemma_same_power(high: int, left: nat, right: nat)
    requires
        2 * power2::pow2(left) <= high < 4 * power2::pow2(left),
        2 * power2::pow2(right) <= high < 4 * power2::pow2(right),
    ensures
        left == right,
{
    if left < right {
        power2::lemma_pow2_unfold(right);
        if left < right - 1 {
            power2::lemma_pow2_strictly_increases(left, (right - 1) as nat);
        }
    } else if right < left {
        power2::lemma_pow2_unfold(left);
        if right < left - 1 {
            power2::lemma_pow2_strictly_increases(right, (left - 1) as nat);
        }
    }
}

/// A distance code is spelled in one way.
pub proof fn lemma_spelled(out: DistanceSymbol, code: int, num_direct: int, postfix_bits: int)
    requires
        0 <= num_direct,
        0 <= postfix_bits <= 3,
        spells(out, code, num_direct, postfix_bits),
    ensures
        spelled(code, num_direct, postfix_bits) == out,
{
    let other = spelled(code, num_direct, postfix_bits);
    let first = NUM_DISTANCE_SHORT_CODES + num_direct;
    let stride = power2::pow2(postfix_bits as nat) as int;
    power2::lemma_pow2_pos(postfix_bits as nat);
    if out.symbol >= first {
        lemma_symbol_parts(out, num_direct, postfix_bits);
    }
    if other.symbol >= first {
        lemma_symbol_parts(other, num_direct, postfix_bits);
    }
    let rest = out.symbol - first;
    let high = (2 + rest / stride % 2) * power2::pow2(out.num_extra as nat) + out.extra;
    let rest2 = other.symbol - first;
    let high2 = (2 + rest2 / stride % 2) * power2::pow2(other.num_extra as nat) + other.extra;
    if out.symbol >= first {
        div_mod::lemma_mod_bound(rest, stride);
        assert((high - 4) * stride >= 0) by (nonlinear_arith)
            requires
                high >= 4,
                stride > 0,
        ;
    }
    if other.symbol >= first {
        div_mod::lemma_mod_bound(rest2, stride);
        assert((high2 - 4) * stride >= 0) by (nonlinear_arith)
            requires
                high2 >= 4,
                stride > 0,
        ;
    }
    if out.symbol >= first && other.symbol >= first {
        div_mod::lemma_fundamental_div_mod_converse(
            code - first,
            stride,
            high - 4,
            rest % stride,
        );
        div_mod::lemma_fundamental_div_mod_converse(
            code - first,
            stride,
            high2 - 4,
            rest2 % stride,
        );
        assert(high == high2);
        lemma_same_power(high, out.num_extra as nat, other.num_extra as nat);
        let width = power2::pow2(out.num_extra as nat) as int;
        let upper = rest / stride % 2;
        let upper2 = rest2 / stride % 2;
        assert(upper == upper2 && out.extra == other.extra) by (nonlinear_arith)
            requires
                (2 + upper) * width + out.extra == (2 + upper2) * width + other.extra,
                0 <= out.extra < width,
                0 <= other.extra < width,
                upper == 0 || upper == 1,
                upper2 == 0 || upper2 == 1,
        ;
        assert(rest / stride == rest2 / stride);
        div_mod::lemma_fundamental_div_mod(rest, stride);
        div_mod::lemma_fundamental_div_mod(rest2, stride);
    }
}

/// Splits a distance code into a symbol and extra bits.
pub fn prefix_encode_copy_distance(code: usize, num_direct: usize, postfix_bits: usize) -> (out:
    DistanceSymbol)
    requires
        code <= 0x8000_0010,
        num_direct <= 120,
        postfix_bits <= 3,
    ensures
        out.wf(num_direct as int, postfix_bits as int),
        out.code(num_direct as int, postfix_bits as int) == code,
        out == spelled(code as int, num_direct as int, postfix_bits as int),
        out.num_extra <= 30,
        in_alphabet(code as int, num_direct as int, postfix_bits as int) ==> out.symbol < 544,
{
    let first: usize = NUM_DISTANCE_SHORT_CODES + num_direct;
    if code < first {
        let direct = DistanceSymbol { symbol: code, num_extra: 0, extra: 0 };
        proof {
            lemma_spelled(direct, code as int, num_direct as int, postfix_bits as int);
        }
        return direct;
    }
    proof {
        math::lemma_one_shl(postfix_bits);
        power2::lemma2_to64();
    }
    let stride: usize = 1usize << postfix_bits;
    let low: usize = (code - first) % stride;
    let high: usize = (code - first) / stride + 4;
    proof {
        assert(stride == 1 || stride == 2 || stride == 4 || stride == 8);
        assert(high <= 0x8000_0020);
    }
    let top: u32 = log2_floor_non_zero(high);
    proof {
        if top >= 32 {
            power2::lemma_pow2_strictly_increases(31, top as nat);
            power2::lemma_pow2_strictly_increases(31, 32);
            if top > 32 {
                power2::lemma_pow2_strictly_increases(32, top as nat);
            }
        }
        if top < 2 {
            assert(top == 0 || top == 1);
        }
        power2::lemma_pow2_unfold(top as nat);
        power2::lemma_pow2_unfold((top + 1) as nat);
    }
    let num_extra: u32 = top - 1;
    proof {
        math::lemma_one_shl(num_extra as usize);
    }
    let half: usize = 1usize << (num_extra as usize);
    assert(2 * half <= high < 4 * half);
    let upper: bool = high >= 3 * half;
    let extra: usize = if upper {
        high - 3 * half
    } else {
        high - 2 * half
    };
    let prefix: usize = if upper {
        1
    } else {
        0
    };
    let group: usize = 2 * (num_extra as usize - 1) + prefix;
    assert(group * stride + low <= 600) by (nonlinear_arith)
        requires
            group <= 64,
            stride <= 8,
            low < stride,
    ;
    let out = DistanceSymbol { symbol: first + group * stride + low, num_extra, extra };
    proof {
        div_mod::lemma_fundamental_div_mod_converse(
            (out.symbol - first) as int,
            stride as int,
            group as int,
            low as int,
        );
        div_mod::lemma_fundamental_div_mod((code - first) as int, stride as int);
        assert((2 + prefix) * half == if upper {
            3 * half
        } else {
            2 * half
        }) by (nonlinear_arith)
            requires
                prefix == if upper {
                    1usize
                } else {
                    0usize
                },
        ;
        assert((high - 4) * stride + low == code - first) by (nonlinear_arith)
            requires
                code - first == stride * ((code - first) / stride as int) + low,
                high - 4 == (code - first) / stride as int,
        ;
        if in_alphabet(code as int, num_direct as int, postfix_bits as int) {
            assert(high - 4 < 0x3FF_FFFC) by (nonlinear_arith)
                requires
                    (high - 4) * stride + low < 0x3FF_FFFC * stride,
                    0 <= low,
                    stride > 0,
            ;
            if top > 25 {
                power2::lemma_pow2_strictly_increases(25, top as nat);
                if top > 26 {
                    power2::lemma_pow2_strictly_increases(26, top as nat);
                }
            }
            assert(group * stride + low < 384) by (nonlinear_arith)
                requires
                    group <= 47,
                    stride <= 8,
                    low < stride,
            ;
        }
    }
    proof {
        lemma_spelled(out, code as int, num_direct as int, postfix_bits as int);
    }
    out
}

/// An alphabet reaches as far as its largest distance says: no symbol of it stands for
/// more, whatever its extra bits, and its last symbol with all extra bits set stands for
/// just that.
pub proof fn lemma_alphabet_reaches(out: DistanceSymbol, num_direct: int, postfix_bits: int)
    requires
        0 <= num_direct <= 120,
        0 <= postfix_bits <= 3,
        out.wf(num_direct, postfix_bits),
        out.symbol < distance::alphabet_size(postfix_bits as nat, num_direct),
    ensures
        out.code(num_direct, postfix_bits) - 15 <= distance::largest_distance(
            postfix_bits as nat,
            num_direct,
        ),
        out.symbol == distance::alphabet_size(postfix_bits as nat, num_direct) - 1 && out.extra
            == power2::pow2(out.num_extra as nat) - 1 ==> out.code(num_direct, postfix_bits) - 15
            == distance::largest_distance(postfix_bits as nat, num_direct),
        out.num_extra <= 24,
{
    let first = NUM_DISTANCE_SHORT_CODES + num_direct;
    let stride = power2::pow2(postfix_bits as nat) as int;
    let n = postfix_bits as nat;
    power2::lemma2_to64();
    power2::lemma_pow2_pos(n);
    power2::lemma_pow2_unfold((n + 1) as nat);
    power2::lemma_pow2_adds(26, n);
    power2::lemma_pow2_adds(2, n);
    assert(power2::pow2(26) == 0x400_0000) by {
        power2::lemma_pow2_adds(13, 13);
    }
    assert(power2::pow2(24) == 0x100_0000) by {
        power2::lemma_pow2_adds(12, 12);
    }
    assert(distance::alphabet_size(n, num_direct) == first + 48 * stride);
    assert(distance::largest_distance(n, num_direct) == num_direct + 0x3FF_FFFC * stride);
    if out.symbol >= first {
        lemma_symbol_parts(out, num_direct, postfix_bits);
        let rest = out.symbol - first;
        let half = rest / stride;
        let low = rest % stride;
        let width = power2::pow2(out.num_extra as nat) as int;
        let high = (2 + half % 2) * width + out.extra;
        div_mod::lemma_fundamental_div_mod(rest, stride);
        div_mod::lemma_mod_bound(rest, stride);
        assert(half <= 47) by (nonlinear_arith)
            requires
                rest == stride * half + low,
                rest < 48 * stride,
                0 <= low < stride,
                stride > 0,
        ;
        if out.num_extra < 24 {
            power2::lemma_pow2_strictly_increases(out.num_extra as nat, 24);
        }
        assert((high - 4) * stride + low <= 0x3FF_FFFC * stride - 1) by (nonlinear_arith)
            requires
                high < 0x400_0000,
                0 <= low < stride,
        ;
        if out.symbol == distance::alphabet_size(n, num_direct) - 1 && out.extra == width - 1 {
            assert(half == 47 && low == stride - 1) by (nonlinear_arith)
                requires
                    rest == stride * half + low,
                    rest == 48 * stride - 1,
                    0 <= low < stride,
                    half <= 47,
            ;
            assert(half % 2 == 1 && out.num_extra == 24 && width == 0x100_0000);
            let upper = half % 2;
            assert((2 + upper) * width == 0x300_0000) by (nonlinear_arith)
                requires
                    upper == 1,
                    width == 0x100_0000,
            ;
            assert(high == 0x3FF_FFFF);
            assert((high - 4) * stride + low == 0x3FF_FFFC * stride - 1) by (nonlinear_arith)
                requires
                    high == 0x3FF_FFFF,
                    low == stride - 1,
            ;
        }
    } else {
        assert(0x3FF_FFFC * stride >= 1);
    }
}

} // verus!
