//! Numbers of up to sixty-three bits, seven to a byte, the lowest first.
use vstd::prelude::*;

verus! {

/// The largest number a variable-length field can hold.
pub const MAX_VARINT: u64 = 0x7FFF_FFFF_FFFF_FFFF;

/// The number does not fit the field.
#[derive(Copy, Clone, Debug, PartialEq, Eq, Structural)]
pub struct VarintOverflow;

/// The bytes of a number: seven bits each, the high bit set on all but the last.
pub open spec fn encoded(value: int) -> Seq<u8>
    decreases value,
{
    if value < 128 {
        seq![value as u8]
    } else {
        seq![(128 + value % 128) as u8] + encoded(value / 128)
    }
}

/// A number that fits has one to nine bytes.
pub proof fn lemma_encoded_len(value: int)
    requires
        0 <= value <= MAX_VARINT,
    ensures
        1 <= encoded(value).len() <= 9,
{
    reveal_with_fuel(power, 10);
    lemma_encoded_width(value, 9);
}

/// A larger number has no fewer bytes.
pub proof fn lemma_encoded_grows(smaller: int, larger: int)
    requires
        0 <= smaller <= larger,
    ensures
        encoded(smaller).len() <= encoded(larger).len(),
    decreases larger,
{
    if smaller >= 128 {
        lemma_encoded_grows(smaller / 128, larger / 128);
    } else {
        lemma_encoded_positive(larger);
    }
}

/// How many bytes a number of some width has.
proof fn lemma_encoded_width(value: int, width: int)
    requires
        0 <= value < power(width),
        1 <= width,
    ensures
        1 <= encoded(value).len() <= width,
    decreases width,
{
    if value >= 128 {
        assert(width > 1) by {
            if width == 1 {
                assert(power(1) == 128 * power(0));
            }
        }
        assert(power(width) == 128 * power(width - 1));
        lemma_encoded_width(value / 128, width - 1);
    }
}

/// Powers of 128.
pub open spec fn power(n: int) -> int
    decreases n,
{
    if n <= 0 {
        1
    } else {
        128 * power(n - 1)
    }
}

/// Returns how many bytes a number takes.
pub fn encoded_len(value: u64) -> (len: usize)
    ensures
        len == encoded(value as int).len(),
        1 <= len <= 10,
        value <= MAX_VARINT ==> len <= 9,
{
    let mut rest: u64 = value;
    let mut len: usize = 1;
    let ghost mut left: int = 10;
    proof {
        reveal_with_fuel(power, 11);
        assert(power(10) >= 0x1_0000_0000_0000_0000);
        if value <= MAX_VARINT {
            lemma_encoded_len(value as int);
        }
        lemma_encoded_width(value as int, 10);
    }
    while rest >= 128
        invariant
            len + encoded(rest as int).len() == 1 + encoded(value as int).len(),
            1 <= len,
            encoded(value as int).len() <= 10,
            encoded(rest as int).len() >= 1,
        decreases rest,
    {
        proof {
            assert(encoded(rest as int).len() == 1 + encoded(rest as int / 128).len());
            lemma_encoded_positive(rest as int / 128);
        }
        rest = rest / 128;
        len += 1;
    }
    len
}

/// A number has bytes.
proof fn lemma_encoded_positive(value: int)
    ensures
        encoded(value).len() >= 1,
    decreases value,
{
}

/// Appends a number, unless it does not fit.
pub fn write(value: u64, output: &mut Vec<u8>) -> (result: Result<(), VarintOverflow>)
    ensures
        value > MAX_VARINT ==> result == Err::<(), _>(VarintOverflow) && final(output)@
            == old(output)@,
        value <= MAX_VARINT ==> result is Ok && final(output)@ == old(output)@ + encoded(
            value as int,
        ),
{
    if value > MAX_VARINT {
        return Err(VarintOverflow);
    }
    let ghost before = output@;
    let mut rest: u64 = value;
    assert(before + encoded(value as int) =~= output@ + encoded(rest as int));
    while rest >= 128
        invariant
            before + encoded(value as int) == output@ + encoded(rest as int),
        decreases rest,
    {
        let ghost held = output@;
        let byte: u8 = (128 + rest % 128) as u8;
        output.push(byte);
        proof {
            assert(encoded(rest as int) == seq![byte] + encoded(rest as int / 128));
            assert(held + (seq![byte] + encoded(rest as int / 128)) =~= output@ + encoded(
                rest as int / 128,
            ));
        }
        rest = rest / 128;
    }
    output.push(rest as u8);
    assert(output@ =~= before + encoded(value as int));
    Ok(())
}

/// What some bytes start with: a number and how many bytes it takes.
pub open spec fn leading(bytes: Seq<u8>, width: int) -> Option<(int, int)>
    decreases width,
{
    if bytes.len() == 0 || width <= 0 {
        None
    } else if bytes[0] < 128 {
        Some((bytes[0] as int, 1))
    } else {
        match leading(bytes.skip(1), width - 1) {
            None => None,
            Some((high, used)) => Some((bytes[0] - 128 + 128 * high, used + 1)),
        }
    }
}

/// Reads the number some bytes start with, and how many bytes it takes.
///
/// Nothing is read where the bytes end too early or the number does not fit nine
/// of them.
pub fn read(bytes: &[u8]) -> (result: Option<(u64, usize)>)
    ensures
        match (result, leading(bytes@, 9)) {
            (Some((value, used)), Some((number, width))) => value == number && used == width
                && used <= bytes@.len(),
            (None, None) => true,
            _ => false,
        },
{
    let mut value: u64 = 0;
    let mut scale: u64 = 1;
    let mut used: usize = 0;
    proof {
        reveal_with_fuel(power, 10);
        assert(bytes@.skip(0) =~= bytes@);
    }
    while used < 9
        invariant
            used <= 9,
            used <= bytes@.len(),
            scale == power(used as int),
            0 <= value < power(used as int),
            power(9) == 0x8000_0000_0000_0000,
            match leading(bytes@.skip(used as int), 9 - used) {
                None => leading(bytes@, 9) is None,
                Some((high, width)) => leading(bytes@, 9) == Some((value + scale * high, used + width)),
            },
        decreases 9 - used,
    {
        let ghost rest = bytes@.skip(used as int);
        if used >= bytes.len() {
            return None;
        }
        let byte: u8 = bytes[used];
        proof {
            assert(rest[0] == byte);
            assert(rest.skip(1) =~= bytes@.skip(used + 1));
            assert(power(used + 1) == 128 * power(used as int));
            lemma_power_grows(used + 1, 9);
            assert(scale * (byte % 128) <= scale * 127) by (nonlinear_arith)
                requires
                    scale >= 0,
                    byte % 128 <= 127,
            ;
        }
        if byte < 128 {
            return Some((value + scale * byte as u64, used + 1));
        }
        let low: u64 = (byte - 128) as u64;
        assert(low == byte % 128);
        proof {
            match leading(rest.skip(1), 9 - used - 1) {
                None => {},
                Some((high, width)) => {
                    assert(value + scale * (low + 128 * high) == value + scale * low + (128 * scale)
                        * high) by (nonlinear_arith);
                },
            }
        }
        value = value + scale * low;
        used += 1;
        if used < 9 {
            proof {
                lemma_power_grows(used as int, 8);
                reveal_with_fuel(power, 10);
            }
            scale = scale * 128;
        } else {
            return None;
        }
    }
    None
}

/// Powers grow.
proof fn lemma_power_grows(i: int, j: int)
    requires
        0 <= i <= j,
    ensures
        1 <= power(i) <= power(j),
    decreases j,
{
    if i < j {
        lemma_power_grows(i, j - 1);
    } else if i > 0 {
        lemma_power_grows(i - 1, i - 1);
    }
}

/// A number that was written reads back, whatever follows it.
pub proof fn lemma_reads_back(value: int, rest: Seq<u8>)
    requires
        0 <= value <= MAX_VARINT,
    ensures
        leading(encoded(value) + rest, 9) == Some((value, encoded(value).len() as int)),
{
    reveal_with_fuel(power, 10);
    lemma_reads_back_within(value, rest, 9);
}

/// A number of some width reads back.
proof fn lemma_reads_back_within(value: int, rest: Seq<u8>, width: int)
    requires
        0 <= value < power(width),
        1 <= width,
    ensures
        leading(encoded(value) + rest, width) == Some((value, encoded(value).len() as int)),
    decreases width,
{
    let bytes = encoded(value) + rest;
    if value >= 128 {
        if width == 1 {
            assert(power(1) == 128 * power(0));
        }
        assert(power(width) == 128 * power(width - 1));
        lemma_reads_back_within(value / 128, rest, width - 1);
        assert(bytes.skip(1) =~= encoded(value / 128) + rest);
        assert(bytes[0] == 128 + value % 128);
    } else {
        assert(bytes[0] == value);
    }
}

} // verus!
