use lzw_archive::lzw::packer::from_u32;
use lzw_archive::lzw::packer::pop_byte;
use lzw_archive::lzw::packer::BitPacker;
use lzw_archive::lzw::width::bit_length_u32;

#[test]
fn bit_length_counts_binary_digits() {
    assert_eq!(bit_length_u32(0), 0);
    assert_eq!(bit_length_u32(1), 1);
    assert_eq!(bit_length_u32(4), 3);
    assert_eq!(bit_length_u32(255), 8);
    assert_eq!(bit_length_u32(256), 9);
    assert_eq!(bit_length_u32(511), 9);
    assert_eq!(bit_length_u32(512), 10);
    assert_eq!(bit_length_u32(u32::MAX), 32);
}

#[test]
fn from_u32_writes_the_most_significant_bit_first() {
    let mut bits = from_u32(0b1000_0001, 8);
    assert_eq!(pop_byte(&mut bits), Some(0b1000_0001));
    assert_eq!(pop_byte(&mut bits), None);
}

#[test]
fn from_u32_puts_zeros_in_front() {
    let mut bits = from_u32(5, 16);
    assert_eq!(pop_byte(&mut bits), Some(0));
    assert_eq!(pop_byte(&mut bits), Some(5));
    assert_eq!(pop_byte(&mut bits), None);
}

#[test]
fn from_u32_drops_digits_above_the_width() {
    let mut bits = from_u32(0x1234_5678, 8);
    assert_eq!(pop_byte(&mut bits), Some(0x78));
    assert_eq!(pop_byte(&mut bits), None);
}

#[test]
fn from_u32_takes_all_32_bits() {
    let mut bits = from_u32(0xDEAD_BEEF, 32);
    assert_eq!(pop_byte(&mut bits), Some(0xDE));
    assert_eq!(pop_byte(&mut bits), Some(0xAD));
    assert_eq!(pop_byte(&mut bits), Some(0xBE));
    assert_eq!(pop_byte(&mut bits), Some(0xEF));
    assert_eq!(pop_byte(&mut bits), None);
}

#[test]
fn pop_byte_leaves_fewer_than_eight_bits() {
    let mut bits = from_u32(0b111_1111, 7);
    assert_eq!(pop_byte(&mut bits), None);
    let mut bits = from_u32(0, 0);
    assert_eq!(pop_byte(&mut bits), None);
    let mut bits = from_u32(0b1_0110_0101, 9);
    assert_eq!(pop_byte(&mut bits), Some(0b1011_0010));
    assert_eq!(pop_byte(&mut bits), None);
}

#[test]
fn packer_without_bits_gives_no_bytes() {
    assert_eq!(BitPacker::new().flush(), Vec::<u8>::new());
}

#[test]
fn packer_fills_the_last_byte_with_zeros() {
    let mut packer = BitPacker::new();
    packer.append(0b101, 3);
    assert_eq!(packer.flush(), vec![0b1010_0000]);
}

#[test]
fn packer_gives_whole_bytes_as_they_are() {
    let mut packer = BitPacker::new();
    packer.append(0x41, 8);
    packer.append(0x42, 8);
    assert_eq!(packer.flush(), vec![0x41, 0x42]);
}

#[test]
fn packer_joins_codes_across_bytes() {
    let mut packer = BitPacker::new();
    packer.append(0x1FF, 9);
    packer.append(0, 9);
    packer.append(1, 1);
    assert_eq!(packer.flush(), vec![0xFF, 0x80, 0x20]);
}

#[test]
fn packer_appends_nothing_for_width_zero() {
    let mut packer = BitPacker::new();
    packer.append(0xFFFF, 0);
    packer.append(0xA, 4);
    packer.append(0xFFFF, 0);
    packer.append(0x5, 4);
    assert_eq!(packer.flush(), vec![0xA5]);
}

#[test]
fn packer_takes_codes_of_32_bits() {
    let mut packer = BitPacker::new();
    packer.append(1, 1);
    packer.append(0x8000_0001, 32);
    assert_eq!(packer.flush(), vec![0xC0, 0x00, 0x00, 0x00, 0x80]);
}

#[test]
fn packer_lets_a_byte_out_when_it_is_whole() {
    let mut packer = BitPacker::new();
    assert_eq!(packer.emitted_bytes(), &[] as &[u8]);
    packer.append(0b111_1111, 7);
    assert_eq!(packer.emitted_bytes(), &[] as &[u8]);
    packer.append(0, 1);
    assert_eq!(packer.emitted_bytes(), &[0xFE]);
    packer.append(0x1FF, 9);
    assert_eq!(packer.emitted_bytes(), &[0xFE, 0xFF]);
    packer.append(0xABCD, 16);
    assert_eq!(packer.emitted_bytes(), &[0xFE, 0xFF, 0xD5, 0xE6]);
    assert_eq!(packer.flush(), vec![0xFE, 0xFF, 0xD5, 0xE6, 0x80]);
}

#[test]
fn packer_gives_taken_bytes_only_once() {
    let mut packer = BitPacker::new();
    packer.append(0xABC, 12);
    assert_eq!(packer.take_bytes(), vec![0xAB]);
    assert_eq!(packer.emitted_bytes(), &[] as &[u8]);
    assert_eq!(packer.take_bytes(), Vec::<u8>::new());
    packer.append(0xDEF, 12);
    assert_eq!(packer.emitted_bytes(), &[0xCD, 0xEF]);
    assert_eq!(packer.take_bytes(), vec![0xCD, 0xEF]);
    packer.append(1, 2);
    assert_eq!(packer.take_bytes(), Vec::<u8>::new());
    assert_eq!(packer.flush(), vec![0x40]);
}

#[test]
fn packer_gives_at_the_end_what_was_not_taken() {
    let mut packer = BitPacker::new();
    packer.append(0x12345, 20);
    assert_eq!(packer.take_bytes(), vec![0x12, 0x34]);
    packer.append(0x6789A, 20);
    assert_eq!(packer.flush(), vec![0x56, 0x78, 0x9A]);
}
