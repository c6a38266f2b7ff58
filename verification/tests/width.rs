use lzw_archive::lzw::width::is_reset_due;
use lzw_archive::lzw::width::width_for;

#[test]
fn width_is_never_below_eight() {
    assert_eq!(width_for(0), 8);
    assert_eq!(width_for(4), 8);
    assert_eq!(width_for(127), 8);
    assert_eq!(width_for(255), 8);
}

#[test]
fn width_is_the_bit_length_of_the_highest_code() {
    assert_eq!(width_for(256), 9);
    assert_eq!(width_for(511), 9);
    assert_eq!(width_for(512), 10);
    assert_eq!(width_for(65535), 16);
    assert_eq!(width_for(65536), 17);
    assert_eq!(width_for(u32::MAX), 32);
}

#[test]
fn reset_is_due_when_the_next_code_is_too_wide() {
    assert!(!is_reset_due(255, 9));
    assert!(!is_reset_due(510, 9));
    assert!(is_reset_due(511, 9));
    assert!(!is_reset_due(511, 10));
    assert!(!is_reset_due(1022, 10));
    assert!(is_reset_due(1023, 10));
    assert!(!is_reset_due(u32::MAX - 1, 32));
    assert!(is_reset_due(u32::MAX, 32));
}

#[test]
fn reset_is_due_at_once_under_a_maximum_the_codes_are_past() {
    assert!(is_reset_due(255, 8));
    assert!(is_reset_due(0, 0));
    assert!(!is_reset_due(0, 1));
    assert!(!is_reset_due(u32::MAX, 33));
}
