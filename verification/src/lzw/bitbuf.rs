//! The bit buffer: a `bitvec` vector of bits, most significant bit first,
//! and what this library takes on trust about it.

use bitvec::field::BitField;
use bitvec::order::Msb0;
use bitvec::vec::BitVec;
use vstd::prelude::*;

verus! {

/// A growable sequence of bits, kept in a `bitvec::vec::BitVec` over bytes
/// in `Msb0` order. Verus does not look inside: what it knows of a buffer
/// is `bit_seq`, and what the functions below say of it.
#[verifier::external_body]
pub struct BitBuf {
    bits: BitVec<u8, Msb0>,
}

/// The bits that a buffer holds, first bit first.
pub uninterp spec fn bit_seq(buf: BitBuf) -> Seq<bool>;

/// The longest buffer these functions are asked to build. `bitvec` can
/// address one eighth of the address space in bits; this is that limit on a
/// 32-bit machine, and below it anywhere else.
pub const BIT_LIMIT: usize = 0x1FFF_FFFF;

/// The number that a run of bits spells when read as a binary numeral, most
/// significant bit first.
pub open spec fn bits_value(bits: Seq<bool>) -> nat
    decreases bits.len(),
{
    if bits.len() == 0 {
        0
    } else {
        2 * bits_value(bits.drop_last()) + if bits.last() {
            1nat
        } else {
            0nat
        }
    }
}

/// `BitVec::with_capacity`: an empty bit vector. The call panics when the
/// capacity is beyond what a bit vector can address, which `BIT_LIMIT`
/// rules out.
#[verifier::external_body]
pub(crate) fn bits_with_capacity(capacity: usize) -> (buf: BitBuf)
    requires
        capacity <= BIT_LIMIT,
    ensures
        bit_seq(buf) == Seq::<bool>::empty(),
{
    BitBuf { bits: BitVec::with_capacity(capacity) }
}

/// `BitVec::len`: the number of bits held.
#[verifier::external_body]
pub(crate) fn bits_len(buf: &BitBuf) -> (n: usize)
    ensures
        n == bit_seq(*buf).len(),
{
    buf.bits.len()
}

/// `BitVec::push`: one more bit at the end. The call panics when the vector
/// is at its longest, which the bound rules out.
#[verifier::external_body]
pub(crate) fn bits_push(buf: &mut BitBuf, bit: bool)
    requires
        bit_seq(*old(buf)).len() < BIT_LIMIT,
    ensures
        bit_seq(*final(buf)) == bit_seq(*old(buf)).push(bit),
{
    buf.bits.push(bit)
}

/// `BitVec::append`: all bits of `other` move to the end of `buf`, in their
/// order, and `other` is left empty. The call panics when the two lengths
/// together pass the longest vector, which the bound rules out.
#[verifier::external_body]
pub(crate) fn bits_append(buf: &mut BitBuf, other: &mut BitBuf)
    requires
        bit_seq(*old(buf)).len() + bit_seq(*old(other)).len() <= BIT_LIMIT,
    ensures
        bit_seq(*final(buf)) == bit_seq(*old(buf)) + bit_seq(*old(other)),
        bit_seq(*final(other)) == Seq::<bool>::empty(),
{
    buf.bits.append(&mut other.bits)
}

/// `BitVec::split_off`: `buf` keeps its first `at` bits and the rest is
/// returned. The call panics when `at` is past the end.
#[verifier::external_body]
pub(crate) fn bits_split_off(buf: &mut BitBuf, at: usize) -> (rest: BitBuf)
    requires
        at <= bit_seq(*old(buf)).len(),
    ensures
        bit_seq(*final(buf)) == bit_seq(*old(buf)).take(at as int),
        bit_seq(rest) == bit_seq(*old(buf)).skip(at as int),
{
    BitBuf { bits: buf.bits.split_off(at) }
}

/// `BitField::load_be` at `u8`, on a bit vector in `Msb0` order: the bits
/// read as one binary numeral, first bit most significant. The call panics
/// on an empty vector and on one of more than eight bits.
#[verifier::external_body]
pub(crate) fn bits_load_byte(buf: &BitBuf) -> (byte: u8)
    requires
        1 <= bit_seq(*buf).len() <= 8,
    ensures
        byte as nat == bits_value(bit_seq(*buf)),
{
    buf.bits.load_be::<u8>()
}

} // verus!
