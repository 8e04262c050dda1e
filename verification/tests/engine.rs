use bitfield::bits::{bit_length, get_bits, set_bits};
use bitfield::specifier::{storage_bits, Specifier};

#[test]
fn set_bits_across_byte_boundary() {
    let mut buf = vec![0u8; 2];
    set_bits(&mut buf, 4, 8, 0xAB);
    assert_eq!(buf.as_slice(), &[0xB0, 0x0A]);
    assert_eq!(get_bits(&buf, 4, 8), 0xAB);
    assert_eq!(get_bits(&buf, 0, 4), 0);
    assert_eq!(get_bits(&buf, 12, 4), 0);
}

#[test]
fn set_bits_clears_as_well_as_sets() {
    let mut buf = vec![0xFFu8; 2];
    set_bits(&mut buf, 4, 8, 0);
    assert_eq!(buf.as_slice(), &[0x0F, 0xF0]);
    assert_eq!(get_bits(&buf, 4, 8), 0);
}

#[test]
fn set_bits_writes_low_bits_only() {
    let mut buf = vec![0u8; 1];
    set_bits(&mut buf, 0, 4, 0xFF);
    assert_eq!(get_bits(&buf, 0, 4), 0xF);
    assert_eq!(get_bits(&buf, 4, 4), 0);
}

#[test]
fn lsb_first_packing() {
    let mut buf = vec![0u8; 1];
    set_bits(&mut buf, 0, 1, 1);
    assert_eq!(buf[0], 0b0000_0001);
    set_bits(&mut buf, 7, 1, 1);
    assert_eq!(buf[0], 0b1000_0001);
    set_bits(&mut buf, 0, 1, 0);
    assert_eq!(buf[0], 0b1000_0000);
}

#[test]
fn full_width_round_trip() {
    let mut buf = vec![0u8; 17];
    set_bits(&mut buf, 3, 128, u128::MAX);
    assert_eq!(get_bits(&buf, 3, 128), u128::MAX);
    assert_eq!(get_bits(&buf, 0, 3), 0);
    assert_eq!(get_bits(&buf, 131, 5), 0);
}

#[test]
fn bit_length_values() {
    assert_eq!(bit_length(0), 0);
    assert_eq!(bit_length(1), 1);
    assert_eq!(bit_length(2), 2);
    assert_eq!(bit_length(7), 3);
    assert_eq!(bit_length(8), 4);
    assert_eq!(bit_length(255), 8);
    assert_eq!(bit_length(256), 9);
    assert_eq!(bit_length(u128::MAX), 128);
}

#[test]
fn bool_specifier_is_one_bit() {
    assert_eq!(<bool as Specifier>::bits(), 1);
    let mut buf = vec![0u8; 2];
    <bool as Specifier>::set(&mut buf, 3, true);
    assert!(<bool as Specifier>::get(&buf, 3));
    assert!(!<bool as Specifier>::get(&buf, 2));
    assert!(!<bool as Specifier>::get(&buf, 4));
    assert_eq!(buf.as_slice(), &[0b0000_1000, 0]);
    <bool as Specifier>::set(&mut buf, 3, false);
    assert!(!<bool as Specifier>::get(&buf, 3));
    assert_eq!(buf.as_slice(), &[0, 0]);
}

#[test]
fn bool_specifier_straddles_bytes_of_the_stream() {
    let mut buf = vec![0u8; 2];
    <bool as Specifier>::set(&mut buf, 8, true);
    assert_eq!(buf.as_slice(), &[0, 1]);
    assert!(<bool as Specifier>::get(&buf, 8));
}

#[test]
fn storage_kind_table() {
    assert_eq!(storage_bits(1), 8);
    assert_eq!(storage_bits(8), 8);
    assert_eq!(storage_bits(9), 16);
    assert_eq!(storage_bits(16), 16);
    assert_eq!(storage_bits(17), 32);
    assert_eq!(storage_bits(32), 32);
    assert_eq!(storage_bits(33), 64);
    assert_eq!(storage_bits(64), 64);
    assert_eq!(storage_bits(65), 128);
    assert_eq!(storage_bits(128), 128);
}
