use sidu::radix::{format_byte, ByteFmt};

#[test]
fn byte_255_in_every_radix() {
    assert_eq!(format_byte(255, ByteFmt::Bin), "11111111");
    assert_eq!(format_byte(255, ByteFmt::Dec), "255");
    assert_eq!(format_byte(255, ByteFmt::Hex), "ff");
}

#[test]
fn byte_zero_is_a_single_zero_in_every_radix() {
    assert_eq!(format_byte(0, ByteFmt::Bin), "0");
    assert_eq!(format_byte(0, ByteFmt::Dec), "0");
    assert_eq!(format_byte(0, ByteFmt::Hex), "0");
}

#[test]
fn no_padding_and_lowercase_digits() {
    assert_eq!(format_byte(1, ByteFmt::Bin), "1");
    assert_eq!(format_byte(2, ByteFmt::Bin), "10");
    assert_eq!(format_byte(5, ByteFmt::Bin), "101");
    assert_eq!(format_byte(128, ByteFmt::Bin), "10000000");
    assert_eq!(format_byte(9, ByteFmt::Dec), "9");
    assert_eq!(format_byte(10, ByteFmt::Dec), "10");
    assert_eq!(format_byte(100, ByteFmt::Dec), "100");
    assert_eq!(format_byte(10, ByteFmt::Hex), "a");
    assert_eq!(format_byte(15, ByteFmt::Hex), "f");
    assert_eq!(format_byte(16, ByteFmt::Hex), "10");
    assert_eq!(format_byte(171, ByteFmt::Hex), "ab");
    assert_eq!(format_byte(205, ByteFmt::Hex), "cd");
    assert_eq!(format_byte(239, ByteFmt::Hex), "ef");
}

#[test]
fn every_byte_renders_as_the_standard_formatter_does() {
    for b in 0..=255u8 {
        assert_eq!(format_byte(b, ByteFmt::Bin), format!("{:b}", b));
        assert_eq!(format_byte(b, ByteFmt::Dec), format!("{}", b));
        assert_eq!(format_byte(b, ByteFmt::Hex), format!("{:x}", b));
    }
}

#[test]
fn rendered_digits_denote_the_byte() {
    for b in 0..=255u8 {
        assert_eq!(u8::from_str_radix(&format_byte(b, ByteFmt::Bin), 2), Ok(b));
        assert_eq!(u8::from_str_radix(&format_byte(b, ByteFmt::Dec), 10), Ok(b));
        assert_eq!(u8::from_str_radix(&format_byte(b, ByteFmt::Hex), 16), Ok(b));
    }
}

#[test]
fn base_of_each_radix() {
    assert_eq!(ByteFmt::Bin.base(), 2);
    assert_eq!(ByteFmt::Dec.base(), 10);
    assert_eq!(ByteFmt::Hex.base(), 16);
}
