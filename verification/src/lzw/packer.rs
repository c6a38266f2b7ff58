//! The bit packer: codes of varying width go in, most significant bit
//! first, and whole bytes come out.

use crate::lzw::bitbuf::bit_seq;
use crate::lzw::bitbuf::bits_append;
use crate::lzw::bitbuf::bits_len;
use crate::lzw::bitbuf::bits_load_byte;
use crate::lzw::bitbuf::bits_push;
use crate::lzw::bitbuf::bits_split_off;
use crate::lzw::bitbuf::bits_value;
use crate::lzw::bitbuf::bits_with_capacity;
use crate::lzw::bitbuf::BitBuf;
use vstd::prelude::*;

verus! {

/// `value` written with `width` binary digits, most significant first.
/// Digits above the `width` lowest are dropped; a value with fewer digits
/// gets zeros in front.
pub open spec fn code_bits(value: nat, width: nat) -> Seq<bool>
    decreases width,
{
    if width == 0 {
        Seq::empty()
    } else {
        code_bits(value / 2, (width - 1) as nat).push(value % 2 == 1)
    }
}

/// `n` zero bits.
pub open spec fn zero_bits(n: nat) -> Seq<bool> {
    Seq::new(n, |i: int| false)
}

/// `bits` with as few zero bits added at the end as make the length a
/// multiple of eight.
pub open spec fn padded(bits: Seq<bool>) -> Seq<bool> {
    bits + zero_bits(((8 - bits.len() % 8) % 8) as nat)
}

/// The `k`-th byte of the packed form of `bits`.
pub open spec fn byte_at(bits: Seq<bool>, k: int) -> u8 {
    bits_value(padded(bits).subrange(8 * k, 8 * k + 8)) as u8
}

/// The bytes that `bits` fill, eight bits to a byte, the first bit in the
/// most significant place, the last byte filled up with zero bits.
pub open spec fn pack(bits: Seq<bool>) -> Seq<u8> {
    Seq::new(((bits.len() + 7) / 8) as nat, |k: int| byte_at(bits, k))
}

/// The length of `code_bits` is the width asked for.
pub proof fn lemma_code_bits_len(value: nat, width: nat)
    ensures
        code_bits(value, width).len() == width,
    decreases width,
{
    if width > 0 {
        lemma_code_bits_len(value / 2, (width - 1) as nat);
    }
}

/// Bit `j` of `code_bits(value, width)` is the binary digit of `value` at
/// place `width - 1 - j`.
pub proof fn lemma_code_bits_index(value: u32, width: nat, j: int)
    requires
        0 <= j < width <= 32,
    ensures
        code_bits(value as nat, width).len() == width,
        code_bits(value as nat, width)[j] == ((value >> ((width - 1 - j) as u32)) & 1 == 1),
    decreases width,
{
    lemma_code_bits_len(value as nat, width);
    if j == width - 1 {
        assert((value >> 0u32) & 1 == value % 2) by (bit_vector);
    } else {
        let half: u32 = value / 2;
        let k: u32 = (width - 2 - j) as u32;
        lemma_code_bits_index(half, (width - 1) as nat, j);
        assert((half >> k) & 1 == (value >> ((k + 1) as u32)) & 1) by (bit_vector)
            requires
                half == value / 2,
                k < 31,
        ;
    }
}

/// A run of `n` bits spells a number below `2^n`; for eight bits, a byte.
pub proof fn lemma_bits_value_bound(bits: Seq<bool>)
    ensures
        bits_value(bits) < vstd::arithmetic::power2::pow2(bits.len()),
    decreases bits.len(),
{
    vstd::arithmetic::power2::lemma2_to64();
    if bits.len() > 0 {
        lemma_bits_value_bound(bits.drop_last());
        vstd::arithmetic::power2::lemma_pow2_unfold(bits.len());
    }
}

/// The bits of a code, one after the other, in a fresh buffer.
pub fn from_u32(value: u32, bits: u8) -> (buf: BitBuf)
    requires
        bits <= 32,
    ensures
        bit_seq(buf) == code_bits(value as nat, bits as nat),
{
    let mut buf = bits_with_capacity(bits as usize);
    let mut i: u8 = bits;
    proof {
        lemma_code_bits_len(value as nat, bits as nat);
    }
    while i > 0
        invariant
            i <= bits <= 32,
            code_bits(value as nat, bits as nat).len() == bits,
            bit_seq(buf) == code_bits(value as nat, bits as nat).take(bits - i),
        decreases i,
    {
        i = i - 1;
        let bit = (value >> (i as u32)) & 1 == 1;
        proof {
            lemma_code_bits_index(value, bits as nat, bits - 1 - i);
        }
        bits_push(&mut buf, bit);
        assert(bit_seq(buf) =~= code_bits(value as nat, bits as nat).take(bits - i));
    }
    assert(code_bits(value as nat, bits as nat).take(bits as int) =~= code_bits(
        value as nat,
        bits as nat,
    ));
    buf
}

/// Takes the first eight bits out of the buffer as a byte, if it holds that
/// many.
pub fn pop_byte(buf: &mut BitBuf) -> (byte: Option<u8>)
    ensures
        match byte {
            Some(b) => {
                &&& bit_seq(*old(buf)).len() >= 8
                &&& b as nat == bits_value(bit_seq(*old(buf)).take(8))
                &&& bit_seq(*final(buf)) == bit_seq(*old(buf)).skip(8)
            },
            None => bit_seq(*old(buf)).len() < 8 && bit_seq(*final(buf)) == bit_seq(*old(buf)),
        },
{
    if bits_len(buf) >= 8 {
        let rest = bits_split_off(buf, 8);
        let byte = bits_load_byte(buf);
        *buf = rest;
        Some(byte)
    } else {
        None
    }
}

/// A whole byte of `bits` is the same byte of any sequence that `bits`
/// begins.
pub proof fn lemma_byte_at_prefix(bits: Seq<bool>, more: Seq<bool>, k: int)
    requires
        0 <= k,
        8 * k + 8 <= bits.len(),
    ensures
        byte_at(bits + more, k) == byte_at(bits, k),
        byte_at(bits, k) as nat == bits_value(bits.subrange(8 * k, 8 * k + 8)),
{
    let whole = bits + more;
    assert(padded(whole).subrange(8 * k, 8 * k + 8) =~= bits.subrange(8 * k, 8 * k + 8));
    assert(padded(bits).subrange(8 * k, 8 * k + 8) =~= bits.subrange(8 * k, 8 * k + 8));
    lemma_bits_value_bound(bits.subrange(8 * k, 8 * k + 8));
    vstd::arithmetic::power2::lemma2_to64();
}

/// The bit packer. Codes are appended as runs of bits; every eight bits
/// leave the buffer as one byte of output, in order, and wait to be taken.
/// Its view is the sequence of all bits appended so far.
pub struct BitPacker {
    buf: BitBuf,
    out: Vec<u8>,
    bits: Ghost<Seq<bool>>,
    taken: Ghost<nat>,
}

impl View for BitPacker {
    type V = Seq<bool>;

    closed spec fn view(&self) -> Seq<bool> {
        self.bits@
    }
}

impl BitPacker {
    /// The packer's own consistency: the bytes that wait are the whole
    /// bytes of the bits appended, but for those taken already, and the
    /// buffer holds the bits after them, fewer than eight.
    pub closed spec fn wf(&self) -> bool {
        &&& self.taken@ <= self.bits@.len() / 8
        &&& self.out@ == pack(self.bits@).subrange(
            self.taken@ as int,
            self.bits@.len() as int / 8,
        )
        &&& bit_seq(self.buf) == self.bits@.skip(8 * (self.bits@.len() as int / 8))
    }

    /// The number of bytes that have been taken.
    pub closed spec fn taken(&self) -> nat {
        self.taken@
    }

    /// The bytes that have left the buffer and wait to be taken.
    pub closed spec fn emitted(&self) -> Seq<u8> {
        self.out@
    }

    /// The bytes that wait are the whole bytes of the bits appended, after
    /// those taken already: each byte leaves the buffer as soon as its
    /// eight bits are there, and none before.
    pub proof fn lemma_emitted(&self)
        requires
            self.wf(),
        ensures
            self.taken() <= self@.len() / 8,
            self.emitted() == pack(self@).subrange(self.taken() as int, self@.len() as int / 8),
    {
    }

    /// The bytes that wait to be taken.
    pub fn emitted_bytes(&self) -> (bytes: &[u8])
        ensures
            bytes@ == self.emitted(),
    {
        self.out.as_slice()
    }

    /// A packer that has been given nothing.
    pub fn new() -> (packer: BitPacker)
        ensures
            packer.wf(),
            packer@ == Seq::<bool>::empty(),
            packer.taken() == 0,
    {
        let packer = BitPacker {
            buf: bits_with_capacity(8),
            out: Vec::new(),
            bits: Ghost(Seq::empty()),
            taken: Ghost(0),
        };
        assert(packer.out@ =~= pack(packer.bits@).subrange(0, 0));
        assert(bit_seq(packer.buf) =~= packer.bits@.skip(0));
        packer
    }

    /// Appends `code` as `width` bits, most significant first, and moves
    /// every byte that this completes to the bytes that wait.
    pub fn append(&mut self, code: u32, width: u8)
        requires
            old(self).wf(),
            width <= 32,
        ensures
            final(self).wf(),
            final(self)@ == old(self)@ + code_bits(code as nat, width as nat),
            final(self).taken() == old(self).taken(),
    {
        let ghost before = self.bits@;
        let ghost taken = self.taken@ as int;
        let ghost total = self.bits@ + code_bits(code as nat, width as nat);
        proof {
            lemma_code_bits_len(code as nat, width as nat);
            assert forall|k: int| 0 <= k < self.out@.len() implies self.out@[k] == byte_at(
                total,
                taken + k,
            ) by {
                lemma_byte_at_prefix(before, code_bits(code as nat, width as nat), taken + k);
            }
        }
        let mut piece = from_u32(code, width);
        bits_append(&mut self.buf, &mut piece);
        self.bits = Ghost(total);
        assert(bit_seq(self.buf) =~= total.skip(8 * (taken + self.out@.len())));
        loop
            invariant
                self.bits@ == total,
                self.taken@ == taken,
                0 <= taken,
                8 * (taken + self.out@.len()) <= total.len() < 8 * (taken + self.out@.len()) + 48,
                bit_seq(self.buf) == total.skip(8 * (taken + self.out@.len())),
                forall|k: int|
                    0 <= k < self.out@.len() ==> self.out@[k] == byte_at(total, taken + k),
            ensures
                self.bits@ == total,
                self.taken@ == taken,
                taken + self.out@.len() == total.len() / 8,
                bit_seq(self.buf) == total.skip(8 * (taken + self.out@.len())),
                forall|k: int|
                    0 <= k < self.out@.len() ==> self.out@[k] == byte_at(total, taken + k),
            decreases total.len() - 8 * (taken + self.out@.len()),
        {
            let ghost n = taken + self.out@.len();
            match pop_byte(&mut self.buf) {
                Some(byte) => {
                    proof {
                        lemma_byte_at_prefix(total, Seq::empty(), n);
                        assert(total.skip(8 * n).take(8) =~= total.subrange(8 * n, 8 * n + 8));
                        assert(total.skip(8 * n).skip(8) =~= total.skip(8 * (n + 1)));
                    }
                    self.out.push(byte);
                },
                None => {
                    break ;
                },
            }
        }
        assert(self.out@ =~= pack(total).subrange(taken, total.len() as int / 8));
    }

    /// Takes the bytes that wait, leaving the bits still in the buffer.
    pub fn take_bytes(&mut self) -> (bytes: Vec<u8>)
        requires
            old(self).wf(),
        ensures
            final(self).wf(),
            final(self)@ == old(self)@,
            final(self).taken() == old(self)@.len() / 8,
            bytes@ == old(self).emitted(),
            bytes@ == pack(old(self)@).subrange(
                old(self).taken() as int,
                old(self)@.len() as int / 8,
            ),
    {
        let mut bytes: Vec<u8> = Vec::new();
        std::mem::swap(&mut self.out, &mut bytes);
        self.taken = Ghost(self.bits@.len() / 8);
        assert(self.out@ =~= pack(self.bits@).subrange(
            self.taken@ as int,
            self.bits@.len() as int / 8,
        ));
        bytes
    }

    /// Ends the stream: bits still in the buffer are filled up with zero
    /// bits to one last byte. Gives the bytes of the stream that have not
    /// been taken.
    pub fn flush(self) -> (bytes: Vec<u8>)
        requires
            self.wf(),
        ensures
            bytes@ == pack(self@).skip(self.taken() as int),
    {
        let mut packer = self;
        let ghost bits = packer.bits@;
        let ghost taken = packer.taken@ as int;
        let ghost n = bits.len() as int / 8;
        let held = bits_len(&packer.buf);
        assert(held == bits.len() - 8 * n);
        if held > 0 {
            let mut len = held;
            while len < 8
                invariant
                    0 < held <= len <= 8,
                    held == bits.len() - 8 * n,
                    packer.out@ == pack(bits).subrange(taken, n),
                    0 <= taken <= n,
                    len == bit_seq(packer.buf).len(),
                    bit_seq(packer.buf) == bits.skip(8 * n) + zero_bits((len - held) as nat),
                decreases 8 - len,
            {
                bits_push(&mut packer.buf, false);
                len = len + 1;
                assert(bit_seq(packer.buf) =~= bits.skip(8 * n) + zero_bits((len - held) as nat));
            }
            proof {
                assert(padded(bits).subrange(8 * n, 8 * n + 8) =~= bit_seq(packer.buf));
                assert(bit_seq(packer.buf).take(8) =~= bit_seq(packer.buf));
                lemma_bits_value_bound(bit_seq(packer.buf));
                vstd::arithmetic::power2::lemma2_to64();
            }
            match pop_byte(&mut packer.buf) {
                Some(byte) => {
                    packer.out.push(byte);
                    assert(byte == byte_at(bits, n));
                },
                None => {},
            }
            assert(packer.out@ =~= pack(bits).skip(taken));
        } else {
            assert(packer.out@ =~= pack(bits).skip(taken));
        }
        packer.out
    }
}

} // verus!
