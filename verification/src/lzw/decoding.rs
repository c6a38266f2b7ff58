//! What a stream means: the bytes that it stands for, to a reader who
//! knows the dictionary the encoder started from and the maximum width.
//!
//! Nothing here is executable. The reader is the mirror image of the
//! encoder, written down to state that encoding loses nothing.

use crate::lzw::archive::emit;
use crate::lzw::archive::finish;
use crate::lzw::archive::grow;
use crate::lzw::archive::run;
use crate::lzw::archive::step;
use crate::lzw::archive::stream;
use crate::lzw::archive::width_of;
use crate::lzw::archive::Emission;
use crate::lzw::archive::Trace;
use crate::lzw::bitbuf::bits_value;
use crate::lzw::dictionary::has_key;
use crate::lzw::dictionary::initial_keys;
use crate::lzw::dictionary::lemma_code_of_key;
use crate::lzw::dictionary::place_of;
use crate::lzw::dictionary::valid_keys;
use crate::lzw::packer::byte_at;
use crate::lzw::packer::code_bits;
use crate::lzw::packer::lemma_byte_at_prefix;
use crate::lzw::packer::lemma_code_bits_len;
use crate::lzw::packer::pack;
use crate::lzw::packer::padded;
use crate::lzw::packer::zero_bits;
use crate::lzw::width::bit_length;
use crate::lzw::width::code_width;
use crate::lzw::width::reset_due;
use vstd::arithmetic::power2::lemma2_to64;
use vstd::arithmetic::power2::lemma_pow2_unfold;
use vstd::arithmetic::power2::pow2;
use vstd::prelude::*;

verus! {

/// The bits of the bytes, eight to a byte, most significant first.
pub open spec fn unpack(bytes: Seq<u8>) -> Seq<bool>
    decreases bytes.len(),
{
    if bytes.len() == 0 {
        Seq::empty()
    } else {
        unpack(bytes.drop_last()) + code_bits(bytes.last() as nat, 8)
    }
}

/// A number below `2^width` is what its `width` binary digits spell.
pub proof fn lemma_value_of_code_bits(value: nat, width: nat)
    requires
        value < pow2(width),
    ensures
        bits_value(code_bits(value, width)) == value,
    decreases width,
{
    lemma2_to64();
    if width > 0 {
        lemma_pow2_unfold(width);
        lemma_value_of_code_bits(value / 2, (width - 1) as nat);
        assert(code_bits(value, width).drop_last() =~= code_bits(value / 2, (width - 1) as nat));
    }
}

/// A run of bits is the binary digits of the number it spells.
pub proof fn lemma_code_bits_of_value(bits: Seq<bool>)
    ensures
        code_bits(bits_value(bits), bits.len()) == bits,
    decreases bits.len(),
{
    if bits.len() > 0 {
        lemma_code_bits_of_value(bits.drop_last());
        let value = bits_value(bits);
        assert(value / 2 == bits_value(bits.drop_last()));
        assert((value % 2 == 1) == bits.last());
        assert(code_bits(value, bits.len()) =~= bits);
    }
}

/// Padding changes nothing in what is packed, and what is padded needs no
/// more padding.
pub proof fn lemma_pack_padded(bits: Seq<bool>)
    ensures
        padded(bits).len() % 8 == 0,
        padded(bits).len() == 8 * ((bits.len() + 7) / 8),
        padded(padded(bits)) == padded(bits),
        pack(padded(bits)) == pack(bits),
{
    assert(padded(padded(bits)) =~= padded(bits));
    assert(pack(padded(bits)) =~= pack(bits));
}

/// Unpacking what was packed from whole bytes of bits gives the bits back.
pub proof fn lemma_unpack_pack_whole(bits: Seq<bool>)
    requires
        bits.len() % 8 == 0,
    ensures
        unpack(pack(bits)) == bits,
    decreases bits.len(),
{
    if bits.len() == 0 {
        assert(pack(bits) =~= Seq::<u8>::empty());
        assert(bits =~= Seq::<bool>::empty());
    } else {
        let n = bits.len() / 8;
        let head = bits.take(bits.len() - 8);
        let tail = bits.skip(bits.len() - 8);
        assert(bits =~= head + tail);
        lemma_unpack_pack_whole(head);
        assert(pack(bits).drop_last() =~= pack(head)) by {
            assert forall|k: int| 0 <= k < n - 1 implies byte_at(bits, k) == byte_at(head, k) by {
                lemma_byte_at_prefix(head, tail, k);
            }
        }
        lemma_byte_at_prefix(bits, Seq::empty(), n - 1);
        assert(bits.subrange(8 * (n - 1), 8 * (n - 1) + 8) =~= tail);
        lemma_code_bits_of_value(tail);
        assert(pack(bits).last() == byte_at(bits, n - 1));
    }
}

/// Unpacking what was packed gives the bits back, with the padding.
pub proof fn lemma_unpack_pack(bits: Seq<bool>)
    ensures
        unpack(pack(bits)) == padded(bits),
{
    lemma_pack_padded(bits);
    lemma_unpack_pack_whole(padded(bits));
}

/// The state of a reader: the dictionary by its keys, the sequence that
/// the code read last stood for, and the bytes got back so far. An empty
/// `last` means that no code has been read yet.
pub struct Reading {
    pub keys: Seq<Seq<u8>>,
    pub last: Seq<u8>,
    pub text: Seq<u8>,
}

/// The state before the first code.
pub open spec fn first_reading(keys: Seq<Seq<u8>>) -> Reading {
    Reading { keys, last: Seq::empty(), text: Seq::empty() }
}

/// The width of the code that comes next. From the second code on, the
/// encoder has added a key, or started over, since the code before.
pub open spec fn next_width(r: Reading, max_bits: nat) -> nat {
    if r.last.len() == 0 {
        width_of(r.keys)
    } else if reset_due((r.keys.len() - 1) as nat, max_bits) {
        8
    } else {
        code_width(r.keys.len())
    }
}

/// The state after one more code. The code stands for its key; the key
/// that the encoder added before it wrote this code is what the code
/// before stood for, with the first byte of this one added. The one code
/// that is not in the reader's dictionary yet is the code of that very
/// key, which then begins with the first byte of what came before.
pub open spec fn read_code(r: Reading, max_bits: nat, code: nat) -> Reading {
    if r.last.len() == 0 {
        let phrase = r.keys[code as int];
        Reading { keys: r.keys, last: phrase, text: r.text + phrase }
    } else if reset_due((r.keys.len() - 1) as nat, max_bits) {
        let phrase = initial_keys()[code as int];
        Reading { keys: initial_keys(), last: phrase, text: r.text + phrase }
    } else if code < r.keys.len() {
        let phrase = r.keys[code as int];
        Reading { keys: r.keys.push(r.last.push(phrase[0])), last: phrase, text: r.text + phrase }
    } else {
        let phrase = r.last.push(r.last[0]);
        Reading { keys: r.keys.push(phrase), last: phrase, text: r.text + phrase }
    }
}

/// The state after the codes, one after the other.
pub open spec fn read_codes(r: Reading, max_bits: nat, codes: Seq<Emission>) -> Reading
    decreases codes.len(),
{
    if codes.len() == 0 {
        r
    } else {
        read_code(read_codes(r, max_bits, codes.drop_last()), max_bits, codes.last().code as nat)
    }
}

/// The state after the bits: codes are taken from the front, each at the
/// width that comes next, until fewer bits are left than a code takes.
pub open spec fn read_bits(r: Reading, max_bits: nat, bits: Seq<bool>) -> Reading
    decreases bits.len(),
{
    let width = next_width(r, max_bits);
    if bits.len() < width {
        r
    } else {
        read_bits(
            read_code(r, max_bits, bits_value(bits.take(width as int))),
            max_bits,
            bits.skip(width as int),
        )
    }
}

/// The bytes that a stream stands for.
pub open spec fn decode(keys: Seq<Seq<u8>>, max_bits: nat, bytes: Seq<u8>) -> Seq<u8> {
    read_bits(first_reading(keys), max_bits, unpack(bytes)).text
}

/// Whether each of the codes was written with the width that the reader
/// expects at that point, and fits in it.
pub open spec fn well_timed(r: Reading, max_bits: nat, codes: Seq<Emission>) -> bool
    decreases codes.len(),
{
    codes.len() > 0 ==> {
        &&& well_timed(r, max_bits, codes.drop_last())
        &&& codes.last().width == next_width(read_codes(r, max_bits, codes.drop_last()), max_bits)
        &&& codes.last().code < pow2(codes.last().width)
    }
}

/// Whether the reader, having read the codes that the encoder has written,
/// is where the encoder was when it wrote the last of them: it has got
/// back all bytes but those of the sequence now being matched, and its
/// dictionary lacks only the key that the encoder added since.
pub open spec fn in_step(t: Trace, r: Reading, max_bits: nat, source: Seq<u8>) -> bool {
    &&& r.text + t.prefix == source
    &&& valid_keys(r.keys)
    &&& valid_keys(t.keys)
    &&& t.codes.len() == 0 ==> r.keys == t.keys && r.last.len() == 0
    &&& t.codes.len() > 0 ==> {
        &&& r.last.len() > 0
        &&& t.prefix.len() > 0
        &&& t.keys == grow(r.keys, max_bits, r.last.push(t.prefix[0]))
    }
}

/// A number is below two to the power of its bit length.
pub proof fn lemma_below_pow2_of_bit_length(n: nat)
    ensures
        n < pow2(bit_length(n)),
    decreases n,
{
    lemma2_to64();
    if n > 0 {
        lemma_below_pow2_of_bit_length(n / 2);
        lemma_pow2_unfold(bit_length(n));
    }
}

/// A code of a dictionary fits in the width with which the dictionary
/// writes its codes.
pub proof fn lemma_code_fits(keys: Seq<Seq<u8>>, code: nat)
    requires
        code < keys.len(),
    ensures
        code < pow2(width_of(keys)),
{
    let last = (keys.len() - 1) as nat;
    lemma_below_pow2_of_bit_length(last);
    if bit_length(last) < 8 {
        vstd::arithmetic::power2::lemma_pow2_strictly_increases(bit_length(last), 8);
    }
}

/// Where the reader is in step with the encoder and the encoder writes the
/// code of the sequence it has matched, the reader, reading that code, gets
/// that sequence and has the encoder's dictionary; and the code was written
/// with the width that the reader expected.
pub proof fn lemma_read_emitted(t: Trace, r: Reading, max_bits: nat, source: Seq<u8>)
    requires
        in_step(t, r, max_bits, source),
        9 <= max_bits <= 32,
        t.prefix.len() > 0,
        !t.failed,
        !emit(t).failed,
    ensures
        ({
            let e = emit(t).codes.last();
            let after = read_code(r, max_bits, e.code as nat);
            &&& after.keys == t.keys
            &&& after.last == t.prefix
            &&& after.text == r.text + t.prefix
            &&& e.width == next_width(r, max_bits)
            &&& e.code < pow2(e.width)
        }),
{
    lemma_code_of_key(t.keys, t.prefix);
    let code = place_of(t.keys, t.prefix);
    assert(emit(t).codes.last().code == code);
    lemma_code_fits(t.keys, code as nat);
    crate::lzw::width::lemma_bit_length_bounds();
    if t.codes.len() > 0 && !reset_due((r.keys.len() - 1) as nat, max_bits) {
        let added = r.last.push(t.prefix[0]);
        if code < r.keys.len() {
            assert(t.keys[code] == r.keys[code]);
        } else {
            assert(t.keys[code] == added);
            assert(added[0] == r.last[0]);
        }
    }
}

/// The reader stays in step with the encoder: after the codes that the
/// encoder has written for a source, unless it failed, the reader is in
/// step with it, and all those codes were well timed.
pub proof fn lemma_in_step(keys: Seq<Seq<u8>>, max_bits: nat, source: Seq<u8>)
    requires
        valid_keys(keys),
        9 <= max_bits <= 32,
    ensures
        ({
            let t = run(keys, max_bits, source);
            !t.failed ==> in_step(
                t,
                read_codes(first_reading(keys), max_bits, t.codes),
                max_bits,
                source,
            ) && well_timed(first_reading(keys), max_bits, t.codes)
        }),
    decreases source.len(),
{
    let t = run(keys, max_bits, source);
    let start = first_reading(keys);
    if source.len() == 0 {
        assert(start.text + t.prefix =~= source);
    } else if !t.failed {
        let rest = source.drop_last();
        let byte = source.last();
        let t0 = run(keys, max_bits, rest);
        let r0 = read_codes(start, max_bits, t0.codes);
        lemma_in_step(keys, max_bits, rest);
        assert(source =~= rest.push(byte));
        if t0.prefix.len() == 0 {
            assert(r0.text + t.prefix =~= source);
        } else if has_key(t0.keys, t0.prefix.push(byte)) {
            assert(r0.text + t.prefix =~= source);
        } else {
            let candidate = t0.prefix.push(byte);
            lemma_read_emitted(t0, r0, max_bits, rest);
            lemma_code_of_key(t0.keys, t0.prefix);
            assert(candidate.drop_last() =~= t0.prefix);
            crate::lzw::archive::lemma_grow_valid(t0.keys, max_bits, candidate);
            assert(t.codes.drop_last() =~= t0.codes);
            let r = read_codes(start, max_bits, t.codes);
            assert(r.text + t.prefix =~= source);
        }
    }
}

/// Reading the bits of well timed codes, and then more bits, is reading
/// the codes and then the other bits.
pub proof fn lemma_read_stream(r: Reading, max_bits: nat, codes: Seq<Emission>, more: Seq<bool>)
    requires
        well_timed(r, max_bits, codes),
    ensures
        read_bits(r, max_bits, stream(codes) + more) == read_bits(
            read_codes(r, max_bits, codes),
            max_bits,
            more,
        ),
    decreases codes.len(),
{
    if codes.len() == 0 {
        assert(stream(codes) + more =~= more);
    } else {
        let e = codes.last();
        let piece = code_bits(e.code as nat, e.width);
        let before = read_codes(r, max_bits, codes.drop_last());
        lemma_read_stream(r, max_bits, codes.drop_last(), piece + more);
        assert(stream(codes) + more =~= stream(codes.drop_last()) + (piece + more));
        lemma_code_bits_len(e.code as nat, e.width);
        lemma_value_of_code_bits(e.code as nat, e.width);
        assert((piece + more).take(e.width as int) =~= piece);
        assert((piece + more).skip(e.width as int) =~= more);
    }
}

/// Encoding loses nothing. The reader who starts from the dictionary that
/// the encoder started from, and knows the maximum width, gets the source
/// back from the packed stream, whenever the encoding did not fail.
pub proof fn theorem_round_trip(keys: Seq<Seq<u8>>, max_bits: nat, source: Seq<u8>)
    requires
        valid_keys(keys),
        9 <= max_bits <= 32,
        source.len() > 0,
        !finish(keys, max_bits, source).failed,
    ensures
        decode(keys, max_bits, pack(stream(finish(keys, max_bits, source).codes))) == source,
{
    let t = run(keys, max_bits, source);
    let end = finish(keys, max_bits, source);
    let start = first_reading(keys);
    let r = read_codes(start, max_bits, t.codes);
    lemma_in_step(keys, max_bits, source);
    assert(t.prefix.len() > 0) by {
        lemma_in_step(keys, max_bits, source.drop_last());
        let t0 = run(keys, max_bits, source.drop_last());
        assert(t == step(t0, max_bits, source.last()));
    }
    lemma_read_emitted(t, r, max_bits, source);
    assert(end.codes.drop_last() =~= t.codes);
    let done = read_codes(start, max_bits, end.codes);
    assert(done.text == source);
    assert(well_timed(start, max_bits, end.codes));
    let bits = stream(end.codes);
    let padding = zero_bits(((8 - bits.len() % 8) % 8) as nat);
    lemma_unpack_pack(bits);
    lemma_read_stream(start, max_bits, end.codes, padding);
    assert(next_width(done, max_bits) >= 8);
}

} // verus!
