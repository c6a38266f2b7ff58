//! The dictionary: which byte sequences have a code, and which.
//!
//! A dictionary is modelled as the sequence of its keys in the order of
//! their codes: the key at place `c` has the code `c`. So the codes in use
//! are always `0 ..= last`, without gaps.

use std::collections::HashMap;
use vstd::prelude::*;

verus! {

/// The keys of a fresh dictionary: the 256 sequences of one byte, the byte
/// `b` under the code `b`.
pub open spec fn initial_keys() -> Seq<Seq<u8>> {
    Seq::new(256, |i: int| seq![i as u8])
}

/// The keys of the reduced dictionary: the five letters `a` to `e` under
/// the codes 0 to 4.
pub open spec fn reduced_keys() -> Seq<Seq<u8>> {
    seq![seq![97u8], seq![98u8], seq![99u8], seq![100u8], seq![101u8]]
}

/// Whether `key` is in the dictionary.
pub open spec fn has_key(keys: Seq<Seq<u8>>, key: Seq<u8>) -> bool {
    exists|i: int| 0 <= i < keys.len() && #[trigger] keys[i] == key
}

/// A place at which `key` stands in `keys`; with distinct keys, the place.
pub open spec fn place_of(keys: Seq<Seq<u8>>, key: Seq<u8>) -> int {
    choose|i: int| 0 <= i < keys.len() && #[trigger] keys[i] == key
}

/// The code of `key`, if it has one.
pub open spec fn code_of(keys: Seq<Seq<u8>>, key: Seq<u8>) -> Option<u32> {
    if has_key(keys, key) {
        Some(place_of(keys, key) as u32)
    } else {
        None
    }
}

/// What holds of the keys of every dictionary: there is at least one and
/// their codes fit in 32 bits; no key is empty; no two keys are equal; and
/// a key of more than one byte is another key with one byte added.
pub open spec fn valid_keys(keys: Seq<Seq<u8>>) -> bool {
    &&& 1 <= keys.len() <= 0x1_0000_0000
    &&& forall|i: int| 0 <= i < keys.len() ==> (#[trigger] keys[i]).len() >= 1
    &&& forall|i: int, j: int|
        0 <= i < j < keys.len() ==> #[trigger] keys[i] != #[trigger] keys[j]
    &&& forall|i: int|
        0 <= i < keys.len() && (#[trigger] keys[i]).len() > 1 ==> has_key(keys, keys[i].drop_last())
}

/// Whether every sequence of one byte is a key.
pub open spec fn has_all_bytes(keys: Seq<Seq<u8>>) -> bool {
    forall|b: u8| has_key(keys, #[trigger] seq![b])
}

/// With distinct keys, the key at place `i` has the code `i`.
pub proof fn lemma_code_at(keys: Seq<Seq<u8>>, i: int)
    requires
        valid_keys(keys),
        0 <= i < keys.len(),
    ensures
        has_key(keys, keys[i]),
        place_of(keys, keys[i]) == i,
        code_of(keys, keys[i]) == Some(i as u32),
{
    let p = place_of(keys, keys[i]);
    assert(0 <= p < keys.len() && keys[p] == keys[i]);
    if p < i {
        assert(keys[p] != keys[i]);
    }
    if i < p {
        assert(keys[i] != keys[p]);
    }
}

/// A key has a code below the number of keys, and stands at that place.
pub proof fn lemma_code_of_key(keys: Seq<Seq<u8>>, key: Seq<u8>)
    requires
        valid_keys(keys),
        has_key(keys, key),
    ensures
        0 <= place_of(keys, key) < keys.len(),
        keys[place_of(keys, key)] == key,
        key.len() >= 1,
{
}

/// Every beginning of a key is a key.
pub proof fn lemma_prefix_is_key(keys: Seq<Seq<u8>>, key: Seq<u8>, n: int)
    requires
        valid_keys(keys),
        has_key(keys, key),
        1 <= n <= key.len(),
    ensures
        has_key(keys, key.take(n)),
    decreases key.len(),
{
    if n == key.len() {
        assert(key.take(n) =~= key);
    } else {
        lemma_code_of_key(keys, key);
        let i = place_of(keys, key);
        assert(keys[i].len() > 1);
        assert(has_key(keys, keys[i].drop_last()));
        lemma_prefix_is_key(keys, key.drop_last(), n);
        assert(key.drop_last().take(n) =~= key.take(n));
    }
}

/// The fresh dictionary is a valid one, and holds every single byte.
pub proof fn lemma_initial_keys()
    ensures
        valid_keys(initial_keys()),
        has_all_bytes(initial_keys()),
        initial_keys().len() == 256,
        forall|b: u8| code_of(initial_keys(), #[trigger] seq![b]) == Some(b as u32),
{
    let keys = initial_keys();
    assert forall|i: int, j: int| 0 <= i < j < keys.len() implies #[trigger] keys[i]
        != #[trigger] keys[j] by {
        assert(keys[i][0] == i as u8);
        assert(keys[j][0] == j as u8);
    }
    assert(valid_keys(keys));
    assert forall|b: u8| has_key(keys, #[trigger] seq![b]) && code_of(keys, seq![b]) == Some(
        b as u32,
    ) by {
        assert(keys[b as int] =~= seq![b]);
        lemma_code_at(keys, b as int);
    }
}

/// The reduced dictionary is a valid one.
pub proof fn lemma_reduced_keys()
    ensures
        valid_keys(reduced_keys()),
        reduced_keys().len() == 5,
{
    let keys = reduced_keys();
    assert forall|i: int, j: int| 0 <= i < j < keys.len() implies #[trigger] keys[i]
        != #[trigger] keys[j] by {
        assert(keys[i][0] == 97 + i);
        assert(keys[j][0] == 97 + j);
    }
}

/// Adding a sequence that is no key yet, and that is one byte or a key with
/// one byte added, keeps the keys valid; the new key gets the next code and
/// every other key keeps its own.
pub proof fn lemma_push_key(keys: Seq<Seq<u8>>, key: Seq<u8>)
    requires
        valid_keys(keys),
        keys.len() < 0x1_0000_0000,
        key.len() >= 1,
        !has_key(keys, key),
        key.len() > 1 ==> has_key(keys, key.drop_last()),
    ensures
        valid_keys(keys.push(key)),
        code_of(keys.push(key), key) == Some(keys.len() as u32),
        forall|other: Seq<u8>|
            other != key ==> #[trigger] code_of(keys.push(key), other) == code_of(keys, other),
        forall|other: Seq<u8>| has_key(keys, other) ==> #[trigger] has_key(keys.push(key), other),
{
    let grown = keys.push(key);
    assert forall|other: Seq<u8>| has_key(keys, other) implies #[trigger] has_key(
        grown,
        other,
    ) by {
        let i = place_of(keys, other);
        assert(grown[i] == other);
    }
    assert forall|i: int, j: int| 0 <= i < j < grown.len() implies #[trigger] grown[i]
        != #[trigger] grown[j] by {
        if j == keys.len() {
            assert(keys[i] == grown[i]);
        } else {
            assert(keys[i] != keys[j]);
        }
    }
    assert forall|i: int| 0 <= i < grown.len() && (#[trigger] grown[i]).len() > 1 implies has_key(
        grown,
        grown[i].drop_last(),
    ) by {
        if i < keys.len() {
            assert(keys[i] == grown[i]);
            assert(has_key(keys, keys[i].drop_last()));
        }
    }
    assert(valid_keys(grown));
    lemma_code_at(grown, keys.len() as int);
    assert forall|other: Seq<u8>| other != key implies #[trigger] code_of(grown, other) == code_of(
        keys,
        other,
    ) by {
        if has_key(grown, other) {
            let i = place_of(grown, other);
            assert(i < keys.len());
            assert(keys[i] == other);
            lemma_code_at(keys, i);
        }
    }
}

/// The number under which a key is filed: 256 times the file number of
/// what precedes its last byte, plus that byte. A lone byte is preceded by
/// nothing, which has the file number 0; a key with the code `c` has the
/// file number `c + 1`.
pub open spec fn slot(node: int, byte: u8) -> int {
    node * 256 + byte
}

/// The file number of what precedes the last byte of `key`.
pub open spec fn node_before(keys: Seq<Seq<u8>>, key: Seq<u8>) -> int {
    if key.len() <= 1 {
        0
    } else {
        place_of(keys, key.drop_last()) + 1
    }
}

/// The number under which the key at place `i` is filed.
pub open spec fn slot_at(keys: Seq<Seq<u8>>, i: int) -> int {
    slot(node_before(keys, keys[i]), keys[i].last())
}

/// Two valid keys filed under one number are one key.
proof fn lemma_slot_names_key(keys: Seq<Seq<u8>>, i: int, key: Seq<u8>)
    requires
        valid_keys(keys),
        0 <= i < keys.len(),
        key.len() >= 1,
        key.len() > 1 ==> has_key(keys, key.drop_last()),
        slot_at(keys, i) == slot(node_before(keys, key), key.last()),
    ensures
        keys[i] == key,
{
    let found = keys[i];
    assert(found.last() == key.last() && node_before(keys, found) == node_before(keys, key));
    if found.len() > 1 {
        assert(has_key(keys, found.drop_last()));
        lemma_code_of_key(keys, found.drop_last());
        lemma_code_of_key(keys, key.drop_last());
        assert(found.drop_last() == key.drop_last());
    }
    assert(found =~= found.drop_last().push(found.last()));
    assert(key =~= key.drop_last().push(key.last()));
}

/// The dictionary. Its view is the sequence of its keys by code.
pub struct Dictionary {
    edges: HashMap<u64, u32>,
    last: u32,
    keys: Ghost<Seq<Seq<u8>>>,
}

impl View for Dictionary {
    type V = Seq<Seq<u8>>;

    closed spec fn view(&self) -> Seq<Seq<u8>> {
        self.keys@
    }
}

impl Dictionary {
    /// The dictionary's own consistency: its keys are valid, and each is
    /// filed under its number with its code, and nothing else is filed.
    pub closed spec fn wf(&self) -> bool {
        &&& valid_keys(self.keys@)
        &&& self.last + 1 == self.keys@.len()
        &&& forall|i: int|
            0 <= i < self.keys@.len() ==> self.edges@.contains_key(
                #[trigger] slot_at(self.keys@, i) as u64,
            ) && self.edges@[slot_at(self.keys@, i) as u64] == i
        &&& forall|k: u64| #[trigger]
            self.edges@.contains_key(k) ==> self.edges@[k] < self.keys@.len() && slot_at(
                self.keys@,
                self.edges@[k] as int,
            ) == k
    }

    /// A consistent dictionary has valid keys.
    pub proof fn lemma_wf(&self)
        requires
            self.wf(),
        ensures
            valid_keys(self@),
    {
    }

    /// The highest code assigned so far.
    pub fn last_assigned_code(&self) -> (last: u32)
        requires
            self.wf(),
        ensures
            last == self@.len() - 1,
    {
        self.last
    }

    /// The code of the first `n` bytes of `sequence`, if they are a key.
    fn find(&self, sequence: &[u8], n: usize) -> (code: Option<u32>)
        requires
            self.wf(),
            1 <= n <= sequence@.len(),
        ensures
            code == code_of(self@, sequence@.take(n as int)),
    {
        let ghost keys = self.keys@;
        let mut node: u64 = 0;
        let mut i: usize = 0;
        while i < n
            invariant
                self.wf(),
                keys == self.keys@,
                i <= n <= sequence@.len(),
                i == 0 <==> node == 0,
                node <= keys.len(),
                i > 0 ==> keys[node - 1] == sequence@.take(i as int),
            decreases n - i,
        {
            let byte = sequence[i];
            let k: u64 = node * 256 + byte as u64;
            let ghost next = sequence@.take(i + 1);
            proof {
                assert(next.drop_last() =~= sequence@.take(i as int));
                assert(next.last() == byte);
                if i > 0 {
                    lemma_code_at(keys, node - 1);
                }
                assert(slot(node_before(keys, next), next.last()) == k);
            }
            match self.edges.get(&k) {
                Some(code) => {
                    proof {
                        let j = *code as int;
                        assert(self.edges@.contains_key(k));
                        assert(slot_at(keys, j) == k);
                        lemma_slot_names_key(keys, j, next);
                    }
                    node = *code as u64 + 1;
                },
                None => {
                    proof {
                        if has_key(keys, next) {
                            let j = place_of(keys, next);
                            assert(slot_at(keys, j) == k);
                            assert(self.edges@.contains_key(slot_at(keys, j) as u64));
                            assert(false);
                        }
                        if has_key(keys, sequence@.take(n as int)) {
                            lemma_prefix_is_key(keys, sequence@.take(n as int), i + 1);
                            assert(sequence@.take(n as int).take(i + 1) =~= next);
                        }
                    }
                    return None;
                },
            }
            i = i + 1;
        }
        proof {
            lemma_code_at(keys, node - 1);
        }
        Some((node - 1) as u32)
    }

    /// The code of `sequence`, if it is a key; the whole sequence is
    /// compared, not a beginning of it.
    pub fn lookup(&self, sequence: &[u8]) -> (code: Option<u32>)
        requires
            self.wf(),
        ensures
            code == code_of(self@, sequence@),
    {
        if sequence.len() == 0 {
            proof {
                if has_key(self.keys@, sequence@) {
                    lemma_code_of_key(self.keys@, sequence@);
                }
            }
            None
        } else {
            assert(sequence@.take(sequence@.len() as int) =~= sequence@);
            self.find(sequence, sequence.len())
        }
    }

    /// Adds `sequence` as a new key under `code`, which has to be the next
    /// code. The sequence must be new, and what precedes its last byte must
    /// be a key unless it is a single byte.
    pub fn insert(&mut self, sequence: &[u8], code: u32)
        requires
            old(self).wf(),
            sequence@.len() >= 1,
            code_of(old(self)@, sequence@) is None,
            sequence@.len() > 1 ==> code_of(old(self)@, sequence@.drop_last()) is Some,
            code == old(self)@.len(),
        ensures
            final(self).wf(),
            final(self)@ == old(self)@.push(sequence@),
    {
        let ghost keys = self.keys@;
        let ghost key = sequence@;
        let n = sequence.len();
        let byte = sequence[n - 1];
        let mut node: u64 = 0;
        if n > 1 {
            assert(sequence@.take(n - 1) =~= key.drop_last());
            match self.find(sequence, n - 1) {
                Some(parent) => {
                    node = parent as u64 + 1;
                },
                None => {},
            }
        }
        let k: u64 = node * 256 + byte as u64;
        proof {
            assert(slot(node_before(keys, key), key.last()) == k);
            if self.edges@.contains_key(k) {
                let j = self.edges@[k] as int;
                lemma_slot_names_key(keys, j, key);
                assert(has_key(keys, key));
            }
            lemma_push_key(keys, key);
        }
        self.edges.insert(k, code);
        self.last = code;
        self.keys = Ghost(keys.push(key));
        proof {
            let grown = keys.push(key);
            assert forall|i: int| 0 <= i < grown.len() implies slot_at(grown, i) == (if i
                < keys.len() {
                slot_at(keys, i)
            } else {
                k as int
            }) by {
                if grown[i].len() > 1 {
                    let before = grown[i].drop_last();
                    if i < keys.len() {
                        assert(keys[i] == grown[i]);
                        assert(has_key(keys, before));
                    }
                    lemma_code_of_key(keys, before);
                    assert(grown[place_of(keys, before)] == before);
                    lemma_code_at(grown, place_of(keys, before));
                }
            }
            assert forall|i: int| 0 <= i < grown.len() implies self.edges@.contains_key(
                #[trigger] slot_at(grown, i) as u64,
            ) && self.edges@[slot_at(grown, i) as u64] == i by {
                if i < keys.len() {
                    assert(old(self).edges@.contains_key(slot_at(keys, i) as u64));
                }
            }
            assert forall|q: u64| #[trigger] self.edges@.contains_key(q) implies self.edges@[q]
                < grown.len() && slot_at(grown, self.edges@[q] as int) == q by {
                if q != k {
                    assert(old(self).edges@.contains_key(q));
                }
            }
        }
    }

    /// Forgets every key and starts over with the 256 single bytes.
    pub fn reset(&mut self)
        ensures
            final(self).wf(),
            final(self)@ == initial_keys(),
    {
        *self = reset_dictionary();
    }
}

/// A fresh dictionary: the 256 single bytes, each under its own value.
pub fn reset_dictionary() -> (dictionary: Dictionary)
    ensures
        dictionary.wf(),
        dictionary@ == initial_keys(),
{
    let mut edges: HashMap<u64, u32> = HashMap::new();
    let mut ch: u32 = 0;
    while ch < 256
        invariant
            ch <= 256,
            forall|k: u64| #[trigger] edges@.contains_key(k) <==> k < ch,
            forall|k: u64| k < ch ==> #[trigger] edges@[k] == k,
        decreases 256 - ch,
    {
        edges.insert(ch as u64, ch);
        ch = ch + 1;
    }
    let dictionary = Dictionary { edges, last: 255, keys: Ghost(initial_keys()) };
    proof {
        lemma_initial_keys();
    }
    dictionary
}

/// The reduced dictionary, for trying the encoder on a small alphabet: the
/// letters `a` to `e` under the codes 0 to 4.
pub fn test() -> (dictionary: Dictionary)
    ensures
        dictionary.wf(),
        dictionary@ == reduced_keys(),
{
    let mut edges: HashMap<u64, u32> = HashMap::new();
    edges.insert(97, 0);
    edges.insert(98, 1);
    edges.insert(99, 2);
    edges.insert(100, 3);
    edges.insert(101, 4);
    let dictionary = Dictionary { edges, last: 4, keys: Ghost(reduced_keys()) };
    proof {
        lemma_reduced_keys();
    }
    dictionary
}

} // verus!
