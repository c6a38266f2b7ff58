use lzw_archive::lzw::archive::Data;

/// The width with which codes are written while `last` is the highest code.
fn code_width(last: u64) -> u32 {
    let digits = 64 - last.leading_zeros();
    if digits < 8 {
        8
    } else {
        digits
    }
}

/// Reads a stream back: the mirror image of the encoder, starting from the
/// dictionary `keys` and told the maximum width.
fn decode(mut keys: Vec<Vec<u8>>, max_bits: u32, bytes: &[u8]) -> Vec<u8> {
    let total = bytes.len() * 8;
    let mut at = 0;
    let mut last: Vec<u8> = Vec::new();
    let mut text: Vec<u8> = Vec::new();
    loop {
        let reset = 64 - (keys.len() as u64).leading_zeros() > max_bits;
        let width = if last.is_empty() {
            code_width(keys.len() as u64 - 1)
        } else if reset {
            8
        } else {
            code_width(keys.len() as u64)
        } as usize;
        if total - at < width {
            return text;
        }
        let mut code = 0usize;
        for i in at..at + width {
            let bit = (bytes[i / 8] >> (7 - i % 8)) & 1;
            code = code * 2 + bit as usize;
        }
        at += width;
        let phrase = if last.is_empty() {
            keys[code].clone()
        } else if reset {
            keys = (0..=255u8).map(|b| vec![b]).collect();
            keys[code].clone()
        } else if code < keys.len() {
            let phrase = keys[code].clone();
            let mut added = last.clone();
            added.push(phrase[0]);
            keys.push(added);
            phrase
        } else {
            let mut phrase = last.clone();
            phrase.push(last[0]);
            keys.push(phrase.clone());
            phrase
        };
        text.extend_from_slice(&phrase);
        last = phrase;
    }
}

fn fresh_keys() -> Vec<Vec<u8>> {
    (0..=255u8).map(|b| vec![b]).collect()
}

fn reduced_keys() -> Vec<Vec<u8>> {
    b"abcde".iter().map(|b| vec![*b]).collect()
}

fn round_trip(source: &[u8], max_bits: u8) {
    let mut data = match Data::new("source", "archive", max_bits) {
        Ok(data) => data,
        Err(e) => panic!("no encoder: {:?}", e),
    };
    let archived = match data.archive(source) {
        Ok(archived) => archived,
        Err(e) => panic!("not archived: {:?}", e),
    };
    assert!(!archived.is_empty());
    assert_eq!(decode(fresh_keys(), max_bits as u32, &archived), source);
}

/// Bytes that look random but are the same at every run.
fn scrambled(len: usize, alphabet: u32) -> Vec<u8> {
    let mut state: u32 = 12345;
    let mut bytes = Vec::with_capacity(len);
    for _ in 0..len {
        state = state.wrapping_mul(1664525).wrapping_add(1013904223);
        bytes.push(((state >> 16) % alphabet) as u8);
    }
    bytes
}

#[test]
fn round_trip_of_one_byte() {
    for max_bits in 9..=32u8 {
        round_trip(&[0x41], max_bits);
        round_trip(&[0x00], max_bits);
        round_trip(&[0xFF], max_bits);
    }
}

#[test]
fn round_trip_of_a_code_used_as_soon_as_it_is_made() {
    round_trip(b"aaaa", 12);
    round_trip(b"aaaaaaaaaaaaaaaaaaaaaaaaaaaaaaaaaaaaaaaa", 9);
    round_trip(b"abababababababababab", 12);
}

#[test]
fn round_trip_of_text() {
    let text = b"TOBEORNOTTOBEORTOBEORNOT, that is the question: whether 'tis nobler";
    for max_bits in 9..=32u8 {
        round_trip(text, max_bits);
    }
}

#[test]
fn round_trip_across_the_dictionary_starting_over() {
    let mut source: Vec<u8> = (0..=255u8).collect();
    source.extend_from_slice(&[0, 2, 4, 6, 8, 8, 8, 8, 8, 0, 1, 2, 3]);
    round_trip(&source, 9);
    round_trip(&source, 10);
}

#[test]
fn round_trip_of_scrambled_bytes() {
    round_trip(&scrambled(20000, 256), 9);
    round_trip(&scrambled(20000, 256), 10);
    round_trip(&scrambled(20000, 256), 12);
    round_trip(&scrambled(20000, 256), 32);
}

#[test]
fn round_trip_of_scrambled_bytes_of_a_small_alphabet() {
    round_trip(&scrambled(30000, 2), 9);
    round_trip(&scrambled(30000, 3), 11);
    round_trip(&scrambled(30000, 7), 13);
    round_trip(&scrambled(30000, 7), 32);
}

#[test]
fn round_trip_of_long_runs() {
    let mut source = vec![7u8; 5000];
    source.extend_from_slice(&vec![9u8; 5000]);
    source.extend_from_slice(&vec![7u8; 5000]);
    round_trip(&source, 9);
    round_trip(&source, 16);
}

#[test]
fn round_trip_from_the_reduced_dictionary() {
    let source = b"abcabcabcaaaaabbbbbeedcbaedcba";
    for max_bits in [9u8, 12, 32] {
        let mut data = match Data::new_test("source", "archive", max_bits) {
            Ok(data) => data,
            Err(e) => panic!("no encoder: {:?}", e),
        };
        let archived = match data.archive(source) {
            Ok(archived) => archived,
            Err(e) => panic!("not archived: {:?}", e),
        };
        assert_eq!(decode(reduced_keys(), max_bits as u32, &archived), source);
    }
}

#[test]
fn round_trip_from_the_reduced_dictionary_starting_over() {
    let source = scrambled(4000, 5).iter().map(|b| b + b'a').collect::<Vec<u8>>();
    let mut data = match Data::new_test("source", "archive", 9) {
        Ok(data) => data,
        Err(e) => panic!("no encoder: {:?}", e),
    };
    let archived = match data.archive(&source) {
        Ok(archived) => archived,
        Err(e) => panic!("not archived: {:?}", e),
    };
    assert_eq!(decode(reduced_keys(), 9, &archived), source);
}
