//! The encoder: the longest-match state machine over the source bytes, the
//! dictionary it grows, and the stream of bytes it gives.

use crate::lzw::decoding::decode;
use crate::lzw::decoding::theorem_round_trip;
use crate::lzw::dictionary::code_of;
use crate::lzw::dictionary::has_all_bytes;
use crate::lzw::dictionary::has_key;
use crate::lzw::dictionary::initial_keys;
use crate::lzw::dictionary::lemma_initial_keys;
use crate::lzw::dictionary::lemma_push_key;
use crate::lzw::dictionary::reduced_keys;
use crate::lzw::dictionary::reset_dictionary;
use crate::lzw::dictionary::valid_keys;
use crate::lzw::dictionary::Dictionary;
use crate::lzw::packer::code_bits;
use crate::lzw::packer::pack;
use crate::lzw::packer::BitPacker;
use crate::lzw::theory::theorem_dictionary_invariant;
use crate::lzw::theory::theorem_output_length;
use crate::lzw::width::bit_length;
use crate::lzw::width::code_width;
use crate::lzw::width::is_reset_due;
use crate::lzw::width::lemma_bit_length_bounds;
use crate::lzw::width::reset_due;
use crate::lzw::width::valid_max_bits;
use crate::lzw::width::width_for;
use vstd::prelude::*;
use vstd::slice::slice_subrange;

verus! {

/// Why an encoder could not be made, or why encoding stopped.
#[derive(Clone, Copy, Debug, PartialEq, Eq, Structural)]
pub enum ArchiveError {
    /// The maximum code width is not one of 9 to 32.
    Configuration,
    /// There is nothing to compress: the source is empty.
    Input,
    /// A sequence whose code was to be written is not in the dictionary.
    Internal,
}

/// One code as it is written: the code and the number of bits it takes.
pub struct Emission {
    pub code: u32,
    pub width: nat,
}

/// The state of an encoding: the dictionary by its keys, the sequence
/// matched so far, the codes written so far, and whether a code was missing
/// when one was to be written. An empty `prefix` means that no byte has
/// been read yet.
pub struct Trace {
    pub keys: Seq<Seq<u8>>,
    pub prefix: Seq<u8>,
    pub codes: Seq<Emission>,
    pub failed: bool,
}

/// The width with which a dictionary of these keys writes its codes.
pub open spec fn width_of(keys: Seq<Seq<u8>>) -> nat {
    code_width((keys.len() - 1) as nat)
}

/// The dictionary after `candidate` was to be added: with `candidate` under
/// the next code, or, where that code would be wider than `max_bits`, the
/// fresh dictionary without it.
pub open spec fn grow(keys: Seq<Seq<u8>>, max_bits: nat, candidate: Seq<u8>) -> Seq<Seq<u8>> {
    if reset_due((keys.len() - 1) as nat, max_bits) {
        initial_keys()
    } else {
        keys.push(candidate)
    }
}

/// The state before the first byte.
pub open spec fn begin(keys: Seq<Seq<u8>>) -> Trace {
    Trace { keys, prefix: Seq::empty(), codes: Seq::empty(), failed: false }
}

/// The state with the code of the matched sequence written, at the width
/// in force; or the failed state, where the sequence has no code.
pub open spec fn emit(t: Trace) -> Trace {
    match code_of(t.keys, t.prefix) {
        Some(code) => Trace {
            codes: t.codes.push(Emission { code, width: width_of(t.keys) }),
            ..t
        },
        None => Trace { failed: true, ..t },
    }
}

/// The state after one more byte. The first byte becomes the matched
/// sequence. A later byte extends the matched sequence where the longer
/// sequence is a key; where it is not, the code of the matched sequence is
/// written, the longer sequence is added to the dictionary, and the byte
/// alone becomes the matched sequence. A failed state stays as it is.
pub open spec fn step(t: Trace, max_bits: nat, byte: u8) -> Trace {
    if t.failed {
        t
    } else if t.prefix.len() == 0 {
        Trace { prefix: seq![byte], ..t }
    } else if has_key(t.keys, t.prefix.push(byte)) {
        Trace { prefix: t.prefix.push(byte), ..t }
    } else {
        let written = emit(t);
        if written.failed {
            written
        } else {
            Trace {
                keys: grow(t.keys, max_bits, t.prefix.push(byte)),
                prefix: seq![byte],
                ..written
            }
        }
    }
}

/// The state after the bytes of `source`, one after the other.
pub open spec fn run(keys: Seq<Seq<u8>>, max_bits: nat, source: Seq<u8>) -> Trace
    decreases source.len(),
{
    if source.len() == 0 {
        begin(keys)
    } else {
        step(run(keys, max_bits, source.drop_last()), max_bits, source.last())
    }
}

/// The state at the end of `source`: after its bytes, the code of the
/// sequence still matched is written.
pub open spec fn finish(keys: Seq<Seq<u8>>, max_bits: nat, source: Seq<u8>) -> Trace {
    let t = run(keys, max_bits, source);
    if t.failed {
        t
    } else {
        emit(t)
    }
}

/// The bits of the codes, one code after the other.
pub open spec fn stream(codes: Seq<Emission>) -> Seq<bool>
    decreases codes.len(),
{
    if codes.len() == 0 {
        Seq::empty()
    } else {
        stream(codes.drop_last()) + code_bits(codes.last().code as nat, codes.last().width)
    }
}

/// Growing a valid dictionary by a new key that extends one of its keys
/// gives a valid dictionary, which writes codes no wider than `max_bits`.
pub proof fn lemma_grow_valid(keys: Seq<Seq<u8>>, max_bits: nat, candidate: Seq<u8>)
    requires
        valid_keys(keys),
        9 <= max_bits <= 32,
        candidate.len() > 1,
        !has_key(keys, candidate),
        has_key(keys, candidate.drop_last()),
    ensures
        valid_keys(grow(keys, max_bits, candidate)),
        width_of(grow(keys, max_bits, candidate)) <= max_bits,
        has_all_bytes(keys) ==> has_all_bytes(grow(keys, max_bits, candidate)),
{
    lemma_initial_keys();
    lemma_bit_length_bounds();
    if !reset_due((keys.len() - 1) as nat, max_bits) {
        lemma_push_key(keys, candidate);
    }
}

/// Reading one more byte is one more step.
pub proof fn lemma_run_next(keys: Seq<Seq<u8>>, max_bits: nat, source: Seq<u8>, i: int)
    requires
        0 <= i < source.len(),
    ensures
        run(keys, max_bits, source.take(i + 1)) == step(
            run(keys, max_bits, source.take(i)),
            max_bits,
            source[i],
        ),
{
    assert(source.take(i + 1).drop_last() =~= source.take(i));
}

/// Once an encoding has failed, the bytes that follow change nothing.
pub proof fn lemma_failed_stays(keys: Seq<Seq<u8>>, max_bits: nat, source: Seq<u8>, j: int)
    requires
        0 <= j <= source.len(),
        run(keys, max_bits, source.take(j)).failed,
    ensures
        run(keys, max_bits, source) == run(keys, max_bits, source.take(j)),
    decreases source.len(),
{
    if j == source.len() {
        assert(source.take(j) =~= source);
    } else {
        assert(source.drop_last().take(j) =~= source.take(j));
        lemma_failed_stays(keys, max_bits, source.drop_last(), j);
    }
}

/// An encoding in progress, as its contracts speak of it: the sequence
/// matched so far, the codes written so far, and the number of bytes of
/// the stream that have been taken.
pub struct DriverView {
    pub prefix: Seq<u8>,
    pub codes: Seq<Emission>,
    pub taken: nat,
}

/// The state of an encoding that goes with the dictionary of `keys`.
pub open spec fn trace_of(keys: Seq<Seq<u8>>, driver: DriverView) -> Trace {
    Trace { keys, prefix: driver.prefix, codes: driver.codes, failed: false }
}

/// An encoding in progress: the sequence matched so far, and the packer
/// with the codes written so far. It starts before the first byte, takes
/// the bytes of the source one by one, and ends when the source does.
pub struct Driver {
    prev: Vec<u8>,
    packer: BitPacker,
    codes: Ghost<Seq<Emission>>,
}

impl View for Driver {
    type V = DriverView;

    closed spec fn view(&self) -> DriverView {
        DriverView { prefix: self.prev@, codes: self.codes@, taken: self.packer.taken() }
    }
}

impl Driver {
    /// The driver's own consistency: the packer has been given the bits of
    /// the codes written, and nothing else.
    pub closed spec fn wf(&self) -> bool {
        &&& self.packer.wf()
        &&& self.packer@ == stream(self.codes@)
    }

    /// An encoding before its first byte.
    pub fn new() -> (driver: Driver)
        ensures
            driver.wf(),
            driver@ == (DriverView { prefix: Seq::empty(), codes: Seq::empty(), taken: 0 }),
    {
        Driver { prev: Vec::with_capacity(64), packer: BitPacker::new(), codes: Ghost(Seq::empty()) }
    }

    /// Takes the bytes of the stream that are complete and have not been
    /// taken yet. A byte is complete when all its eight bits are written.
    pub fn take_output(&mut self) -> (bytes: Vec<u8>)
        requires
            old(self).wf(),
        ensures
            final(self).wf(),
            old(self)@.taken <= stream(old(self)@.codes).len() / 8,
            final(self)@ == (DriverView {
                taken: stream(old(self)@.codes).len() / 8,
                ..old(self)@
            }),
            bytes@ == pack(stream(old(self)@.codes)).subrange(
                old(self)@.taken as int,
                stream(old(self)@.codes).len() as int / 8,
            ),
    {
        proof {
            self.packer.lemma_emitted();
        }
        self.packer.take_bytes()
    }
}

/// The settings and the state of an encoder, as its contracts speak of
/// them.
pub struct DataView {
    pub keys: Seq<Seq<u8>>,
    pub bits_count: nat,
    pub max_bits_count: nat,
    pub source_file: Seq<char>,
    pub archived_file: Seq<char>,
}

/// An encoder: the names of the file to read and the file to write, the
/// widest code allowed, the dictionary, and the width of the codes now.
pub struct Data {
    dictionary: Dictionary,
    source_file: String,
    archived_file: String,
    bits_count: u8,
    max_bits_count: u8,
}

impl View for Data {
    type V = DataView;

    closed spec fn view(&self) -> DataView {
        DataView {
            keys: self.dictionary@,
            bits_count: self.bits_count as nat,
            max_bits_count: self.max_bits_count as nat,
            source_file: self.source_file@,
            archived_file: self.archived_file@,
        }
    }
}

impl Data {
    /// The encoder's own consistency.
    pub closed spec fn wf(&self) -> bool {
        &&& self.dictionary.wf()
        &&& valid_max_bits(self.max_bits_count)
        &&& self.bits_count == width_of(self.dictionary@)
        &&& self.bits_count <= self.max_bits_count
    }

    /// What a consistent encoder's view is sure to show: valid keys, an
    /// accepted maximum width, and the width that goes with the highest
    /// code, within the maximum.
    pub proof fn lemma_wf(&self)
        requires
            self.wf(),
        ensures
            valid_keys(self@.keys),
            9 <= self@.max_bits_count <= 32,
            self@.bits_count == width_of(self@.keys),
            self@.bits_count <= self@.max_bits_count,
    {
        self.dictionary.lemma_wf();
    }

    /// An encoder for the named files that starts from the fresh
    /// dictionary. The maximum code width has to be one of 9 to 32.
    pub fn new(source_file: &str, archived_file: &str, max_bits_count: u8) -> (data: Result<
        Data,
        ArchiveError,
    >)
        ensures
            valid_max_bits(max_bits_count) <==> data is Ok,
            data matches Err(e) ==> e == ArchiveError::Configuration,
            data matches Ok(d) ==> d.wf() && d@ == (DataView {
                keys: initial_keys(),
                bits_count: 8,
                max_bits_count: max_bits_count as nat,
                source_file: source_file@,
                archived_file: archived_file@,
            }),
    {
        if max_bits_count > 32 || max_bits_count < 9 {
            return Err(ArchiveError::Configuration);
        }
        let dictionary = reset_dictionary();
        proof {
            lemma_bit_length_bounds();
        }
        Ok(
            Data {
                dictionary,
                bits_count: 8,
                source_file: source_file.to_owned(),
                archived_file: archived_file.to_owned(),
                max_bits_count,
            },
        )
    }

    /// An encoder for the named files that starts from the reduced
    /// dictionary of the letters `a` to `e`. The maximum code width has to
    /// be one of 9 to 32.
    pub fn new_test(source_file: &str, archived_file: &str, max_bits_count: u8) -> (data: Result<
        Data,
        ArchiveError,
    >)
        ensures
            valid_max_bits(max_bits_count) <==> data is Ok,
            data matches Err(e) ==> e == ArchiveError::Configuration,
            data matches Ok(d) ==> d.wf() && d@ == (DataView {
                keys: reduced_keys(),
                bits_count: 8,
                max_bits_count: max_bits_count as nat,
                source_file: source_file@,
                archived_file: archived_file@,
            }),
    {
        if max_bits_count > 32 || max_bits_count < 9 {
            return Err(ArchiveError::Configuration);
        }
        let dictionary = crate::lzw::dictionary::test();
        proof {
            reveal_with_fuel(bit_length, 4);
        }
        Ok(
            Data {
                dictionary,
                bits_count: 8,
                source_file: source_file.to_owned(),
                archived_file: archived_file.to_owned(),
                max_bits_count,
            },
        )
    }

    /// The width with which the next code is written.
    pub fn bits_count(&self) -> (bits: u8)
        ensures
            bits == self@.bits_count,
    {
        self.bits_count
    }

    /// The widest code that this encoder writes.
    pub fn max_bits_count(&self) -> (bits: u8)
        ensures
            bits == self@.max_bits_count,
    {
        self.max_bits_count
    }

    /// The highest code assigned so far.
    pub fn last_in_dic(&self) -> (last: u32)
        requires
            self.wf(),
        ensures
            last == self@.keys.len() - 1,
    {
        self.dictionary.last_assigned_code()
    }

    /// The name of the file to read.
    pub fn source_file(&self) -> (name: &str)
        ensures
            name@ == self@.source_file,
    {
        self.source_file.as_str()
    }

    /// The name of the file to write.
    pub fn archived_file(&self) -> (name: &str)
        ensures
            name@ == self@.archived_file,
    {
        self.archived_file.as_str()
    }

    /// The code that the dictionary has for `sequence` now, if any.
    pub fn lookup(&self, sequence: &[u8]) -> (code: Option<u32>)
        requires
            self.wf(),
        ensures
            code == code_of(self@.keys, sequence@),
    {
        self.dictionary.lookup(sequence)
    }

    /// Writes the code of `value` to the packer, at the width in force.
    /// Fails, and writes nothing, where `value` has no code.
    fn append_to_buf(&self, packer: &mut BitPacker, value: &[u8]) -> (done: Result<
        (),
        ArchiveError,
    >)
        requires
            self.wf(),
            old(packer).wf(),
        ensures
            final(packer).wf(),
            final(packer).taken() == old(packer).taken(),
            match code_of(self@.keys, value@) {
                Some(code) => done is Ok && final(packer)@ == old(packer)@ + code_bits(
                    code as nat,
                    self@.bits_count,
                ),
                None => done == Err::<(), ArchiveError>(ArchiveError::Internal) && final(packer)@
                    == old(packer)@,
            },
    {
        match self.dictionary.lookup(value) {
            Some(code) => {
                packer.append(code, self.bits_count);
                Ok(())
            },
            None => Err(ArchiveError::Internal),
        }
    }

    /// Counts `candidate` in: it gets the next code, and the width follows
    /// the new highest code; or, where that code would be too wide, the
    /// dictionary starts over without it and the width is 8 again.
    fn add_element_count(&mut self, candidate: &[u8])
        requires
            old(self).wf(),
            candidate@.len() > 1,
            !has_key(old(self)@.keys, candidate@),
            has_key(old(self)@.keys, candidate@.drop_last()),
        ensures
            final(self).wf(),
            final(self)@ == (DataView {
                keys: grow(old(self)@.keys, old(self)@.max_bits_count, candidate@),
                bits_count: width_of(grow(old(self)@.keys, old(self)@.max_bits_count, candidate@)),
                ..old(self)@
            }),
    {
        let last = self.dictionary.last_assigned_code();
        proof {
            lemma_bit_length_bounds();
        }
        if is_reset_due(last, self.max_bits_count) {
            self.dictionary.reset();
            self.bits_count = 8;
        } else {
            self.dictionary.insert(candidate, last + 1);
            self.bits_count = width_for(last + 1);
        }
    }

    /// Takes one more byte of the source. The first byte becomes the
    /// matched sequence. A later byte extends the matched sequence where
    /// the longer sequence is a key; where it is not, the code of the
    /// matched sequence is written, the longer sequence is counted in, and
    /// the byte alone becomes the matched sequence. Where the matched
    /// sequence has no code to write, nothing changes and the byte is
    /// refused.
    pub fn feed(&mut self, driver: &mut Driver, byte: u8) -> (done: Result<(), ArchiveError>)
        requires
            old(self).wf(),
            old(driver).wf(),
        ensures
            final(self).wf(),
            final(driver).wf(),
            ({
                let next = step(
                    trace_of(old(self)@.keys, old(driver)@),
                    old(self)@.max_bits_count,
                    byte,
                );
                &&& next.failed ==> done == Err::<(), ArchiveError>(ArchiveError::Internal)
                    && final(self)@ == old(self)@ && final(driver)@ == old(driver)@
                &&& !next.failed ==> done is Ok && final(self)@ == (DataView {
                    keys: next.keys,
                    bits_count: width_of(next.keys),
                    ..old(self)@
                }) && final(driver)@ == (DriverView {
                    prefix: next.prefix,
                    codes: next.codes,
                    taken: old(driver)@.taken,
                })
            }),
    {
        let ghost t = trace_of(self@.keys, driver@);
        if driver.prev.len() == 0 {
            driver.prev.push(byte);
            assert(driver.prev@ =~= seq![byte]);
            return Ok(());
        }
        driver.prev.push(byte);
        if self.dictionary.lookup(driver.prev.as_slice()).is_none() {
            let n = driver.prev.len();
            assert(driver.prev@.subrange(0, n - 1) =~= t.prefix);
            match self.append_to_buf(
                &mut driver.packer,
                slice_subrange(driver.prev.as_slice(), 0, n - 1),
            ) {
                Ok(()) => {},
                Err(e) => {
                    driver.prev.pop();
                    assert(driver.prev@ =~= t.prefix);
                    return Err(e);
                },
            }
            proof {
                assert(emit(t).codes.drop_last() =~= t.codes);
                assert(driver.prev@.drop_last() =~= t.prefix);
            }
            driver.codes = Ghost(emit(t).codes);
            self.add_element_count(driver.prev.as_slice());
            driver.prev.clear();
            driver.prev.push(byte);
            assert(driver.prev@ =~= seq![byte]);
        }
        Ok(())
    }

    /// Ends the encoding at the end of the source: the code of the
    /// sequence still matched is written, and the last byte is filled up
    /// with zero bits. Gives the bytes of the stream that have not been
    /// taken. An encoding that was given no byte is refused.
    pub fn finish(&self, driver: Driver) -> (rest: Result<Vec<u8>, ArchiveError>)
        requires
            self.wf(),
            driver.wf(),
        ensures
            driver@.prefix.len() == 0 ==> rest == Err::<Vec<u8>, ArchiveError>(
                ArchiveError::Input,
            ),
            driver@.prefix.len() > 0 ==> ({
                let end = emit(trace_of(self@.keys, driver@));
                &&& end.failed ==> rest == Err::<Vec<u8>, ArchiveError>(ArchiveError::Internal)
                &&& !end.failed ==> rest is Ok && driver@.taken <= pack(stream(end.codes)).len()
                    && rest->Ok_0@ == pack(stream(end.codes)).skip(driver@.taken as int)
            }),
    {
        let mut driver = driver;
        let ghost t = trace_of(self@.keys, driver@);
        if driver.prev.len() == 0 {
            return Err(ArchiveError::Input);
        }
        match self.append_to_buf(&mut driver.packer, driver.prev.as_slice()) {
            Ok(()) => {},
            Err(e) => {
                return Err(e);
            },
        }
        proof {
            assert(emit(t).codes.drop_last() =~= t.codes);
            driver.packer.lemma_emitted();
        }
        Ok(driver.packer.flush())
    }

    /// Compresses `source`. The bytes are read once, in order; the result
    /// is the whole packed stream. An empty source is refused. Afterwards
    /// the encoder holds the dictionary as the source left it.
    pub fn archive(&mut self, source: &[u8]) -> (archived: Result<Vec<u8>, ArchiveError>)
        requires
            old(self).wf(),
        ensures
            final(self).wf(),
            source@.len() == 0 ==> archived == Err::<Vec<u8>, ArchiveError>(ArchiveError::Input)
                && final(self)@ == old(self)@,
            source@.len() > 0 ==> ({
                let end = finish(old(self)@.keys, old(self)@.max_bits_count, source@);
                &&& final(self)@ == (DataView {
                    keys: end.keys,
                    bits_count: width_of(end.keys),
                    ..old(self)@
                })
                &&& end.failed ==> archived == Err::<Vec<u8>, ArchiveError>(ArchiveError::Internal)
                &&& !end.failed ==> archived is Ok && archived->Ok_0@ == pack(stream(end.codes))
            }),
            source@.len() > 0 && has_all_bytes(old(self)@.keys) ==> archived is Ok
                && archived->Ok_0@.len() >= 1 && has_all_bytes(final(self)@.keys),
            archived matches Ok(bytes) ==> decode(
                old(self)@.keys,
                old(self)@.max_bits_count,
                bytes@,
            ) == source@,
    {
        if source.len() == 0 {
            return Err(ArchiveError::Input);
        }
        let ghost before = self@;
        let ghost keys0 = self@.keys;
        let ghost max = self@.max_bits_count;
        proof {
            self.lemma_wf();
            if has_all_bytes(keys0) {
                theorem_output_length(keys0, max, source@);
                theorem_dictionary_invariant(keys0, max, source@);
            }
            if !finish(keys0, max, source@).failed {
                theorem_round_trip(keys0, max, source@);
            }
            assert(source@.take(0) =~= Seq::<u8>::empty());
        }
        let mut driver = Driver::new();
        let mut i: usize = 0;
        while i < source.len()
            invariant
                0 <= i <= source@.len(),
                source@.len() > 0,
                self.wf(),
                driver.wf(),
                before == old(self)@,
                keys0 == before.keys,
                max == before.max_bits_count,
                !run(keys0, max, source@.take(i as int)).failed,
                trace_of(self@.keys, driver@) == run(keys0, max, source@.take(i as int)),
                driver@.taken == 0,
                self@ == (DataView { keys: self@.keys, bits_count: width_of(self@.keys), ..before }),
                has_all_bytes(keys0) ==> !finish(keys0, max, source@).failed && has_all_bytes(
                    run(keys0, max, source@).keys,
                ) && pack(stream(finish(keys0, max, source@).codes)).len() >= 1,
                !finish(keys0, max, source@).failed ==> decode(
                    keys0,
                    max,
                    pack(stream(finish(keys0, max, source@).codes)),
                ) == source@,
            decreases source@.len() - i,
        {
            proof {
                lemma_run_next(keys0, max, source@, i as int);
            }
            match self.feed(&mut driver, source[i]) {
                Ok(()) => {},
                Err(e) => {
                    proof {
                        lemma_failed_stays(keys0, max, source@, i + 1);
                    }
                    return Err(e);
                },
            }
            i = i + 1;
        }
        proof {
            assert(source@.take(i as int) =~= source@);
            lemma_run_next(keys0, max, source@, i - 1);
        }
        let archived = self.finish(driver);
        proof {
            let whole = pack(stream(finish(keys0, max, source@).codes));
            assert(whole.skip(0) =~= whole);
        }
        archived
    }
}

} // verus!
