//! Code-width tracking: how many bits a code is written with.

use vstd::prelude::*;

verus! {

/// The number of binary digits of `n`: 0 for 0, and otherwise the position
/// of the highest set bit, counted from 1.
pub open spec fn bit_length(n: nat) -> nat
    decreases n,
{
    if n == 0 {
        0
    } else {
        1 + bit_length(n / 2)
    }
}

/// The width with which codes are written while `last` is the highest
/// assigned code: its bit length, but never less than eight.
pub open spec fn code_width(last: nat) -> nat {
    if bit_length(last) < 8 {
        8
    } else {
        bit_length(last)
    }
}

/// Whether assigning the code after `last` would need a wider code than
/// `max_bits` allows, so that the dictionary has to start over instead.
pub open spec fn reset_due(last: nat, max_bits: nat) -> bool {
    bit_length(last + 1) > max_bits
}

/// Whether `max_bits` is an acceptable maximum code width.
pub open spec fn valid_max_bits(max_bits: u8) -> bool {
    9 <= max_bits <= 32
}

/// `bit_length` never decreases as the number grows.
pub proof fn lemma_bit_length_monotone(a: nat, b: nat)
    requires
        a <= b,
    ensures
        bit_length(a) <= bit_length(b),
    decreases b,
{
    if a != 0 {
        lemma_bit_length_monotone(a / 2, b / 2);
    }
}

/// A number has at most `k` binary digits exactly when it is below `2^k`,
/// stated here for the bounds the encoder meets.
pub proof fn lemma_bit_length_bounds()
    ensures
        bit_length(255) == 8,
        bit_length(256) == 9,
        bit_length(0xFFFF_FFFF) == 32,
        bit_length(0x1_0000_0000) == 33,
{
    reveal_with_fuel(bit_length, 34);
}

/// The bit length of a 32-bit number.
pub fn bit_length_u32(n: u32) -> (r: u8)
    ensures
        r as nat == bit_length(n as nat),
        r <= 32,
{
    proof {
        lemma_bit_length_bounds();
        lemma_bit_length_monotone(n as nat, 0xFFFF_FFFF);
    }
    let mut r: u8 = 0;
    let mut m: u32 = n;
    while m != 0
        invariant
            bit_length(n as nat) <= 32,
            bit_length(n as nat) == r + bit_length(m as nat),
        decreases m,
    {
        m = m / 2;
        r = r + 1;
    }
    r
}

/// The width with which codes are written while `last` is the highest
/// assigned code.
pub fn width_for(last: u32) -> (width: u8)
    ensures
        width as nat == code_width(last as nat),
        8 <= width <= 32,
{
    let digits = bit_length_u32(last);
    if digits < 8 {
        8
    } else {
        digits
    }
}

/// Whether the dictionary has to start over rather than assign the code
/// after `last`, because that code would be wider than `max_bits`.
pub fn is_reset_due(last: u32, max_bits: u8) -> (due: bool)
    ensures
        due == reset_due(last as nat, max_bits as nat),
{
    proof {
        lemma_bit_length_bounds();
    }
    if last == u32::MAX {
        33 > max_bits
    } else {
        bit_length_u32(last + 1) > max_bits
    }
}

} // verus!
