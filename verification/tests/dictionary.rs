use lzw_archive::lzw::dictionary::reset_dictionary;

#[test]
fn fresh_dictionary_has_the_256_bytes() {
    let dictionary = reset_dictionary();
    assert_eq!(dictionary.last_assigned_code(), 255);
    for byte in 0..=255u8 {
        assert_eq!(dictionary.lookup(&[byte]), Some(byte as u32));
    }
}

#[test]
fn lookup_compares_the_whole_sequence() {
    let mut dictionary = reset_dictionary();
    dictionary.insert(b"ab", 256);
    dictionary.insert(b"abc", 257);
    assert_eq!(dictionary.lookup(b""), None);
    assert_eq!(dictionary.lookup(b"a"), Some(97));
    assert_eq!(dictionary.lookup(b"ab"), Some(256));
    assert_eq!(dictionary.lookup(b"abc"), Some(257));
    assert_eq!(dictionary.lookup(b"abcd"), None);
    assert_eq!(dictionary.lookup(b"abd"), None);
    assert_eq!(dictionary.lookup(b"bc"), None);
    assert_eq!(dictionary.lookup(b"ba"), None);
}

#[test]
fn insert_gives_the_next_code() {
    let mut dictionary = reset_dictionary();
    dictionary.insert(&[0, 0], 256);
    assert_eq!(dictionary.last_assigned_code(), 256);
    dictionary.insert(&[0, 0, 0], 257);
    dictionary.insert(&[255, 255], 258);
    assert_eq!(dictionary.last_assigned_code(), 258);
    assert_eq!(dictionary.lookup(&[0, 0]), Some(256));
    assert_eq!(dictionary.lookup(&[0, 0, 0]), Some(257));
    assert_eq!(dictionary.lookup(&[255, 255]), Some(258));
    assert_eq!(dictionary.lookup(&[255]), Some(255));
}

#[test]
fn reset_forgets_what_was_learned() {
    let mut dictionary = reset_dictionary();
    dictionary.insert(b"ab", 256);
    dictionary.reset();
    assert_eq!(dictionary.last_assigned_code(), 255);
    assert_eq!(dictionary.lookup(b"ab"), None);
    assert_eq!(dictionary.lookup(b"a"), Some(97));
    dictionary.insert(b"ba", 256);
    assert_eq!(dictionary.lookup(b"ba"), Some(256));
}

#[test]
fn reduced_dictionary_has_five_letters() {
    let dictionary = lzw_archive::lzw::dictionary::test();
    assert_eq!(dictionary.last_assigned_code(), 4);
    assert_eq!(dictionary.lookup(b"a"), Some(0));
    assert_eq!(dictionary.lookup(b"e"), Some(4));
    assert_eq!(dictionary.lookup(b"f"), None);
    assert_eq!(dictionary.lookup(b"ab"), None);
}

#[test]
fn reduced_dictionary_takes_a_missing_byte() {
    let mut dictionary = lzw_archive::lzw::dictionary::test();
    dictionary.insert(b"z", 5);
    dictionary.insert(b"za", 6);
    assert_eq!(dictionary.lookup(b"z"), Some(5));
    assert_eq!(dictionary.lookup(b"za"), Some(6));
    assert_eq!(dictionary.last_assigned_code(), 6);
}

#[test]
fn reset_turns_the_reduced_dictionary_into_the_fresh_one() {
    let mut dictionary = lzw_archive::lzw::dictionary::test();
    dictionary.reset();
    assert_eq!(dictionary.last_assigned_code(), 255);
    assert_eq!(dictionary.lookup(b"a"), Some(97));
    assert_eq!(dictionary.lookup(b"z"), Some(122));
}
