use byst::bits::{bit_mask, extract_bits, BitFieldExtract};

#[test]
fn bit_masks() {
    assert_eq!(bit_mask(0), 0);
    assert_eq!(bit_mask(3), 0b111);
    assert_eq!(bit_mask(200), u128::MAX);
}

#[test]
fn extracts_bit_fields() {
    assert_eq!(extract_bits(0b1011_0110, 2, 3), 0b101);
    let value: u16 = 0xabcd;
    let nibble: u8 = value.extract(4, 4);
    assert_eq!(nibble, 0xc);
    let flag: bool = value.extract(0, 1);
    assert!(flag);
    let flag: bool = value.extract(1, 1);
    assert!(!flag);
    let wide: u64 = u128::MAX.extract(64, 63);
    assert_eq!(wide, u64::MAX >> 1);
}
