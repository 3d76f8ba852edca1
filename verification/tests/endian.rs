//! Byte and word orders, and the primitive integer widths.
use peakrdl_rust::endian::{BigEndian, Endian, LittleEndian, WordBigByteLittleEndian, WordLittleByteBigEndian};
use peakrdl_rust::reg::RegInt;

#[test]
fn big_endian_word_bytes() {
    assert_eq!(<BigEndian as Endian>::to_register_endian(0x1234_5678, 4), vec![0x12, 0x34, 0x56, 0x78]);
    assert_eq!(<BigEndian as Endian>::to_register_endian(0x0102, 2), vec![0x01, 0x02]);
    assert_eq!(<WordLittleByteBigEndian as Endian>::to_register_endian(0xab, 1), vec![0xab]);
}

#[test]
fn little_endian_word_bytes() {
    assert_eq!(<LittleEndian as Endian>::to_register_endian(0x1234_5678, 4), vec![0x78, 0x56, 0x34, 0x12]);
    assert_eq!(<WordBigByteLittleEndian as Endian>::to_register_endian(0x0102, 2), vec![0x02, 0x01]);
}

#[test]
fn sixteen_byte_words() {
    let v: u128 = 0x0f0e_0d0c_0b0a_0908_0706_0504_0302_0100;
    let le = <LittleEndian as Endian>::to_register_endian(v, 16);
    assert_eq!(le, (0u8..16).collect::<Vec<u8>>());
    let be = <BigEndian as Endian>::to_register_endian(v, 16);
    assert_eq!(be, (0u8..16).rev().collect::<Vec<u8>>());
    assert_eq!(<LittleEndian as Endian>::from_register_endian(&le), v);
    assert_eq!(<BigEndian as Endian>::from_register_endian(&be), v);
}

#[test]
fn word_values_from_bytes() {
    assert_eq!(<BigEndian as Endian>::from_register_endian(&[0x12, 0x34, 0x56, 0x78]), 0x1234_5678);
    assert_eq!(<LittleEndian as Endian>::from_register_endian(&[0x12, 0x34, 0x56, 0x78]), 0x7856_3412);
    assert_eq!(<WordLittleByteBigEndian as Endian>::from_register_endian(&[0xff, 0x00]), 0xff00);
    assert_eq!(<WordBigByteLittleEndian as Endian>::from_register_endian(&[0xff, 0x00]), 0x00ff);
    assert_eq!(<BigEndian as Endian>::from_register_endian(&[0x80; 8]), 0x8080_8080_8080_8080);
}

#[test]
fn word_round_trip() {
    for v in [0u128, 1, 0x7f, 0x80, 0xff] {
        let b = <BigEndian as Endian>::to_register_endian(v, 1);
        assert_eq!(<BigEndian as Endian>::from_register_endian(&b), v);
    }
    for v in [0u128, 0xdead_beef, 0xffff_ffff] {
        let b = <LittleEndian as Endian>::to_register_endian(v, 4);
        assert_eq!(<LittleEndian as Endian>::from_register_endian(&b), v);
        let b = <BigEndian as Endian>::to_register_endian(v, 4);
        assert_eq!(<BigEndian as Endian>::from_register_endian(&b), v);
    }
}

#[test]
fn address_order_to_significance_examples() {
    // The subword at the second-to-lowest address of two is the least
    // significant with big-endian word order.
    assert_eq!(BigEndian::address_order_to_significance(1, 2), 0);
    assert_eq!(WordBigByteLittleEndian::address_order_to_significance(0, 4), 3);
    assert_eq!(LittleEndian::address_order_to_significance(1, 2), 1);
    assert_eq!(WordLittleByteBigEndian::address_order_to_significance(3, 4), 3);
}

#[test]
fn significance_is_its_own_inverse() {
    for n in 1..8usize {
        for a in 0..n {
            let s = BigEndian::address_order_to_significance(a, n);
            assert_eq!(BigEndian::address_order_to_significance(s, n), a);
        }
    }
}

#[test]
fn reg_int_bit_patterns() {
    assert_eq!(<i8 as RegInt>::to_bits(-1), 0xff);
    assert_eq!(<i8 as RegInt>::from_bits(0x80), -128);
    assert_eq!(<i16 as RegInt>::to_bits(-2), 0xfffe);
    assert_eq!(<i32 as RegInt>::from_bits(0xffff_ffff), -1);
    assert_eq!(<i64 as RegInt>::to_bits(i64::MIN), 0x8000_0000_0000_0000);
    assert_eq!(<i128 as RegInt>::to_bits(-1), u128::MAX);
    assert_eq!(<u16 as RegInt>::to_bits(0xbeef), 0xbeef);
    assert_eq!(<u64 as RegInt>::from_bits(0x1234), 0x1234u64);
    assert_eq!(<u8 as RegInt>::width_bytes(), 1);
    assert_eq!(<u32 as RegInt>::width_bytes(), 4);
    assert_eq!(<i128 as RegInt>::width_bytes(), 16);
}
