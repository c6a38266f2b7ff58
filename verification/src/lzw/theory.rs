//! What holds of every encoding: of the dictionary at each point, of the
//! width of the codes, and of the length of the output.

use crate::lzw::archive::emit;
use crate::lzw::archive::finish;
use crate::lzw::archive::grow;
use crate::lzw::archive::lemma_grow_valid;
use crate::lzw::archive::run;
use crate::lzw::archive::step;
use crate::lzw::archive::stream;
use crate::lzw::archive::width_of;
use crate::lzw::archive::Emission;
use crate::lzw::archive::Trace;
use crate::lzw::dictionary::code_of;
use crate::lzw::dictionary::has_all_bytes;
use crate::lzw::dictionary::has_key;
use crate::lzw::dictionary::initial_keys;
use crate::lzw::dictionary::lemma_code_at;
use crate::lzw::dictionary::lemma_code_of_key;
use crate::lzw::dictionary::place_of;
use crate::lzw::dictionary::valid_keys;
use crate::lzw::packer::lemma_byte_at_prefix;
use crate::lzw::packer::lemma_code_bits_len;
use crate::lzw::packer::pack;
use crate::lzw::width::bit_length;
use crate::lzw::width::code_width;
use crate::lzw::width::lemma_bit_length_bounds;
use crate::lzw::width::lemma_bit_length_monotone;
use crate::lzw::width::reset_due;
use vstd::prelude::*;

verus! {

/// The widths of the codes, added up.
pub open spec fn total_width(codes: Seq<Emission>) -> nat
    decreases codes.len(),
{
    if codes.len() == 0 {
        0
    } else {
        total_width(codes.drop_last()) + codes.last().width
    }
}

/// Whether every code is written with at least 8 and at most `max_bits`
/// bits.
pub open spec fn widths_within(codes: Seq<Emission>, max_bits: nat) -> bool {
    forall|i: int| 0 <= i < codes.len() ==> 8 <= (#[trigger] codes[i]).width <= max_bits
}

/// Whether a state is one that an encoding can be in: its dictionary is
/// valid and writes codes within the maximum width, and so were all codes
/// written.
pub open spec fn sound(t: Trace, max_bits: nat) -> bool {
    &&& valid_keys(t.keys)
    &&& width_of(t.keys) <= max_bits
    &&& widths_within(t.codes, max_bits)
}

/// Whether a state is one of an encoding that cannot fail: it has not
/// failed, every single byte is a key, and so is the matched sequence.
pub open spec fn safe(t: Trace) -> bool {
    &&& !t.failed
    &&& has_all_bytes(t.keys)
    &&& t.prefix.len() > 0 ==> has_key(t.keys, t.prefix)
}

/// In a valid dictionary the codes in use are exactly `0 ..= last`: the key
/// at each place has that place as its code, and whatever has a code is the
/// key at that place. No two keys share a code, and no key has two.
pub proof fn theorem_codes_without_gaps(keys: Seq<Seq<u8>>)
    requires
        valid_keys(keys),
    ensures
        forall|c: int| 0 <= c < keys.len() ==> code_of(keys, #[trigger] keys[c]) == Some(c as u32),
        forall|key: Seq<u8>| #[trigger]
            has_key(keys, key) ==> 0 <= place_of(keys, key) < keys.len() && keys[place_of(
                keys,
                key,
            )] == key,
        forall|i: int, j: int|
            0 <= i < keys.len() && 0 <= j < keys.len() && i != j ==> #[trigger] keys[i]
                != #[trigger] keys[j],
{
    assert forall|c: int| 0 <= c < keys.len() implies code_of(keys, #[trigger] keys[c]) == Some(
        c as u32,
    ) by {
        lemma_code_at(keys, c);
    }
    assert forall|i: int, j: int|
        0 <= i < keys.len() && 0 <= j < keys.len() && i != j implies #[trigger] keys[i]
        != #[trigger] keys[j] by {
        if i < j {
            assert(keys[i] != keys[j]);
        } else {
            assert(keys[j] != keys[i]);
        }
    }
}

/// One step keeps a state sound, and keeps a safe state safe.
pub proof fn lemma_step_sound(t: Trace, max_bits: nat, byte: u8)
    requires
        sound(t, max_bits),
        9 <= max_bits <= 32,
    ensures
        sound(step(t, max_bits, byte), max_bits),
        safe(t) ==> safe(step(t, max_bits, byte)),
{
    let next = step(t, max_bits, byte);
    let candidate = t.prefix.push(byte);
    if t.failed {
    } else if t.prefix.len() == 0 {
        if safe(t) {
            assert(has_key(t.keys, seq![byte]));
        }
    } else if has_key(t.keys, candidate) {
    } else {
        let written = emit(t);
        if !written.failed {
            lemma_code_of_key(t.keys, t.prefix);
            assert(candidate.drop_last() =~= t.prefix);
            lemma_grow_valid(t.keys, max_bits, candidate);
            assert(widths_within(written.codes, max_bits)) by {
                lemma_bit_length_bounds();
                assert forall|i: int| 0 <= i < written.codes.len() implies 8 <= (
                #[trigger] written.codes[i]).width <= max_bits by {
                    if i < t.codes.len() {
                        assert(written.codes[i] == t.codes[i]);
                    }
                }
            }
            if safe(t) {
                assert(has_key(next.keys, seq![byte]));
            }
        }
    }
}

/// At every point of an encoding that starts from a valid dictionary, the
/// dictionary is valid: its keys are distinct and their codes are
/// `0 ..= last` without gaps. Where the dictionary had every single byte at
/// the start, it has them at every point, and the encoding has not failed.
pub proof fn theorem_dictionary_invariant(keys: Seq<Seq<u8>>, max_bits: nat, source: Seq<u8>)
    requires
        valid_keys(keys),
        width_of(keys) <= max_bits,
        9 <= max_bits <= 32,
    ensures
        sound(run(keys, max_bits, source), max_bits),
        has_all_bytes(keys) ==> safe(run(keys, max_bits, source)),
    decreases source.len(),
{
    if source.len() > 0 {
        theorem_dictionary_invariant(keys, max_bits, source.drop_last());
        lemma_step_sound(run(keys, max_bits, source.drop_last()), max_bits, source.last());
    }
}

/// When the dictionary starts over, it is the fresh one: the 256 single
/// bytes, the highest code 255, and the width 8. That happens exactly when
/// the next code would be wider than the maximum.
pub proof fn theorem_reset_restores(keys: Seq<Seq<u8>>, max_bits: nat, candidate: Seq<u8>)
    requires
        valid_keys(keys),
        9 <= max_bits <= 32,
    ensures
        reset_due((keys.len() - 1) as nat, max_bits) ==> grow(keys, max_bits, candidate)
            == initial_keys() && grow(keys, max_bits, candidate).len() - 1 == 255 && width_of(
            grow(keys, max_bits, candidate),
        ) == 8,
        !reset_due((keys.len() - 1) as nat, max_bits) ==> grow(keys, max_bits, candidate)
            == keys.push(candidate),
{
    lemma_bit_length_bounds();
}

/// The width never decreases from one step to the next, except where the
/// step starts the dictionary over; and the width is always the one that
/// goes with the highest code, which from 255 on is its bit length.
pub proof fn theorem_width_monotone(t: Trace, max_bits: nat, byte: u8)
    requires
        valid_keys(t.keys),
        9 <= max_bits <= 32,
    ensures
        ({
            let next = step(t, max_bits, byte);
            ||| next.keys == t.keys
            ||| next.keys == initial_keys() && reset_due((t.keys.len() - 1) as nat, max_bits)
            ||| next.keys.len() == t.keys.len() + 1 && width_of(next.keys) >= width_of(t.keys)
        }),
        width_of(t.keys) == code_width((t.keys.len() - 1) as nat),
        t.keys.len() > 255 ==> width_of(t.keys) == bit_length((t.keys.len() - 1) as nat),
{
    lemma_bit_length_bounds();
    lemma_bit_length_monotone((t.keys.len() - 1) as nat, t.keys.len());
    if t.keys.len() > 255 {
        lemma_bit_length_monotone(255, (t.keys.len() - 1) as nat);
    }
}

/// The bits of the codes are as many as their widths add up to.
pub proof fn lemma_stream_len(codes: Seq<Emission>)
    ensures
        stream(codes).len() == total_width(codes),
    decreases codes.len(),
{
    if codes.len() > 0 {
        lemma_stream_len(codes.drop_last());
        lemma_code_bits_len(codes.last().code as nat, codes.last().width);
    }
}

/// The bits of codes written one after the other are the bits of the
/// first, and then the bits of the others.
pub proof fn lemma_stream_add(codes: Seq<Emission>, later: Seq<Emission>)
    ensures
        stream(codes + later) == stream(codes) + stream(later),
    decreases later.len(),
{
    if later.len() == 0 {
        assert(codes + later =~= codes);
        assert(stream(codes) + stream(later) =~= stream(codes));
    } else {
        lemma_stream_add(codes, later.drop_last());
        assert((codes + later).drop_last() =~= codes + later.drop_last());
        assert(stream(codes + later) =~= stream(codes) + stream(later));
    }
}

/// A byte of the stream that is complete stays as it is: whatever codes
/// are written later, it is the same byte of the longer stream. So a byte
/// can be handed on as soon as its eight bits are written.
pub proof fn theorem_complete_bytes_stay(codes: Seq<Emission>, later: Seq<Emission>, k: int)
    requires
        0 <= k < stream(codes).len() / 8,
    ensures
        k < pack(stream(codes)).len() <= pack(stream(codes + later)).len(),
        pack(stream(codes + later))[k] == pack(stream(codes))[k],
{
    lemma_stream_add(codes, later);
    lemma_byte_at_prefix(stream(codes), stream(later), k);
}

/// Encoding a source that is not empty, from a valid dictionary that holds
/// every single byte, does not fail and writes at least one code. The
/// output is not empty, and its length in bytes is the sum of the widths
/// with which the codes were written, each the width in force when the code
/// was written, rounded up to whole bytes.
pub proof fn theorem_output_length(keys: Seq<Seq<u8>>, max_bits: nat, source: Seq<u8>)
    requires
        valid_keys(keys),
        has_all_bytes(keys),
        width_of(keys) <= max_bits,
        9 <= max_bits <= 32,
        source.len() > 0,
    ensures
        ({
            let end = finish(keys, max_bits, source);
            &&& !end.failed
            &&& end.codes.len() >= 1
            &&& widths_within(end.codes, max_bits)
            &&& stream(end.codes).len() == total_width(end.codes)
            &&& pack(stream(end.codes)).len() == (total_width(end.codes) + 7) / 8
            &&& pack(stream(end.codes)).len() >= 1
        }),
{
    let t = run(keys, max_bits, source);
    let end = finish(keys, max_bits, source);
    theorem_dictionary_invariant(keys, max_bits, source);
    theorem_dictionary_invariant(keys, max_bits, source.drop_last());
    let before = run(keys, max_bits, source.drop_last());
    assert(t.prefix.len() > 0) by {
        assert(t == step(before, max_bits, source.last()));
    }
    lemma_code_of_key(t.keys, t.prefix);
    assert(widths_within(end.codes, max_bits)) by {
        lemma_bit_length_bounds();
        assert forall|i: int| 0 <= i < end.codes.len() implies 8 <= (#[trigger] end.codes[i]).width
            <= max_bits by {
            if i < t.codes.len() {
                assert(end.codes[i] == t.codes[i]);
            }
        }
    }
    lemma_stream_len(end.codes);
}

} // verus!
