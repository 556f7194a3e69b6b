use lzbits::{
    count_bits, nearest_power_of_two, BitSize, BitStreamReader, BitStreamWriter, Nibble,
    VarBitValue,
};

#[test]
fn bit_test() {
    for padding_size in 1..=16 {
        let padding_mask = (1u32 << padding_size) - 1;
        for value_size in 1..=16 {
            let mask = (1u32 << value_size) - 1;
            for pattern in [
                0x0u32,
                u32::MAX,
                0x55555555,
                0xAAAAAAAA,
                0x5A5A5A5A,
                0xA5A5A5A5,
                0x0F0F0F0F,
                0xF0F0F0F0,
                0xE5E5E5E5,
                1234578,
                87654321,
                0xEDB88320,
                0x04C11DB7,
            ] {
                let padding_size = BitSize::new(padding_size).unwrap();
                let value_size = BitSize::new(value_size).unwrap();
                let pattern_n = !pattern & mask;

                let mut writer = BitStreamWriter::new();
                writer.push(VarBitValue::new(padding_size, 0));
                writer.push(VarBitValue::new(value_size, pattern));
                writer.push(VarBitValue::new(padding_size, u32::MAX));
                writer.push(VarBitValue::new(value_size, pattern_n));
                writer.push(VarBitValue::new(padding_size, 0));
                writer.push(VarBitValue::with_bool(true));
                let stream = writer.into_bytes();

                // read_bits alone
                let mut reader = BitStreamReader::new(&stream);
                assert_eq!(reader.read_bits(padding_size).unwrap(), 0);
                assert_eq!(reader.read_bits(value_size).unwrap(), pattern & mask);
                assert_eq!(reader.read_bits(padding_size).unwrap(), padding_mask);
                assert_eq!(reader.read_bits(value_size).unwrap(), pattern_n & mask);
                assert_eq!(reader.read_bits(padding_size).unwrap(), 0);

                // peek_bits, then read_bits
                let mut reader = BitStreamReader::new(&stream);
                assert_eq!(reader.peek_bits(padding_size).unwrap(), 0);
                assert_eq!(reader.read_bits(padding_size).unwrap(), 0);
                assert_eq!(reader.peek_bits(value_size).unwrap(), pattern & mask);
                assert_eq!(reader.read_bits(value_size).unwrap(), pattern & mask);
                assert_eq!(reader.peek_bits(padding_size).unwrap(), padding_mask);
                assert_eq!(reader.read_bits(padding_size).unwrap(), padding_mask);
                assert_eq!(reader.peek_bits(value_size).unwrap(), pattern_n & mask);
                assert_eq!(reader.read_bits(value_size).unwrap(), pattern_n & mask);
                assert_eq!(reader.peek_bits(padding_size).unwrap(), 0);
                assert_eq!(reader.read_bits(padding_size).unwrap(), 0);

                // peek_bits, then advance
                let mut reader = BitStreamReader::new(&stream);
                assert_eq!(reader.peek_bits(padding_size).unwrap(), 0);
                reader.advance(padding_size).unwrap();
                assert_eq!(reader.peek_bits(value_size).unwrap(), pattern & mask);
                reader.advance(value_size).unwrap();
                assert_eq!(reader.peek_bits(padding_size).unwrap(), padding_mask);
                reader.advance(padding_size).unwrap();
                assert_eq!(reader.peek_bits(value_size).unwrap(), pattern_n & mask);
                reader.advance(value_size).unwrap();
                assert_eq!(reader.peek_bits(padding_size).unwrap(), 0);
                reader.advance(padding_size).unwrap();
            }
        }
    }
}

#[test]
fn nearest() {
    for (value, expected) in [
        (0usize, 0usize),
        (1, 1),
        (2, 2),
        (3, 4),
        (4, 4),
        (5, 4),
        (6, 8),
        (7, 8),
        (8, 8),
        (9, 8),
        (10, 8),
        (11, 8),
        (12, 16),
        (13, 16),
        (14, 16),
        (16, 16),
        (16, 16),
    ] {
        let test = nearest_power_of_two(value);

        assert_eq!(test, expected);
    }
}

#[test]
fn reverse() {
    for (size, lhs, rhs) in [
        (8, 0x00, 0x00),
        (8, 0x03, 0xc0),
        (8, 0x55, 0xaa),
        (8, 0xc0, 0x03),
        (8, 0xf0, 0x0f),
        (8, 0xff, 0xff),
        (16, 0x0000, 0x0000),
        (16, 0x00ff, 0xff00),
        (16, 0x0f0f, 0xf0f0),
        (16, 0x1234, 0x2c48),
        (16, 0x3333, 0xcccc),
        (16, 0x5555, 0xaaaa),
        (16, 0xffff, 0xffff),
        (24, 0x000000, 0x000000),
        (24, 0x123456, 0x6a2c48),
        (24, 0x555555, 0xaaaaaa),
        (24, 0xcccccc, 0x333333),
        (24, 0xff0000, 0x0000ff),
        (24, 0xfff000, 0x000fff),
        (24, 0xffff00, 0x00ffff),
        (24, 0xffffff, 0xffffff),
    ] {
        let size = BitSize::new(size).unwrap();
        let lhs = VarBitValue::new(size, lhs);
        let rhs = VarBitValue::new(size, rhs);

        assert_eq!(lhs.reversed(), rhs);
        assert_eq!(lhs, rhs.reversed());

        assert_eq!(lhs.reversed().reversed(), lhs);
        assert_eq!(rhs.reversed().reversed(), rhs);
    }
}

#[test]
fn bit_mask() {
    for i in 1..=24 {
        let mask = (1u32 << i) - 1;
        assert_eq!(mask, BitSize::new(i).unwrap().mask());
        let shifted = 1 << i;
        assert_eq!(shifted, BitSize::new(i).unwrap().power_of_two());
    }
}

#[test]
fn bit_size_rejects_out_of_range() {
    assert!(BitSize::new(0).is_none());
    assert!(BitSize::new(25).is_none());
    assert_eq!(BitSize::new(24), Some(BitSize::Bit24));
    assert_eq!(BitSize::new(1).unwrap().as_usize(), 1);
    assert_eq!(BitSize::MAX.as_u32(), 24);
    assert_eq!(BitSize::NIBBLE.as_u8(), 4);
    assert_eq!(BitSize::new_unchecked(13).as_usize(), 13);
}

#[test]
fn nearest_power_of_two_examples() {
    assert_eq!(nearest_power_of_two(0), 0);
    assert_eq!(nearest_power_of_two(1), 1);
    assert_eq!(nearest_power_of_two(5), 4);
    assert_eq!(nearest_power_of_two(6), 8);
    assert_eq!(nearest_power_of_two(12), 16);
    assert_eq!(nearest_power_of_two(24), 32);
    assert_eq!(nearest_power_of_two(23), 16);
}

#[test]
fn var_bit_value_masks_to_24_bits() {
    let v = VarBitValue::new(BitSize::Bit8, 0xff12_3456);
    assert_eq!(v.value(), 0x12_3456);
    assert_eq!(v.size(), BitSize::Bit8);
}

#[test]
fn var_bit_value_checked() {
    assert!(VarBitValue::new_checked(BitSize::Bit4, 0x10).is_none());
    let v = VarBitValue::new_checked(BitSize::Bit4, 0xf).unwrap();
    assert_eq!(v.value(), 0xf);
    assert_eq!(v.size(), BitSize::Bit4);
    assert_eq!(VarBitValue::with_bool(true).value(), 1);
    assert_eq!(VarBitValue::with_bool(false).value(), 0);
    assert_eq!(VarBitValue::with_byte(0xab).value(), 0xab);
    assert_eq!(VarBitValue::with_nibble(Nibble::new(9).unwrap()).value(), 9);
    assert!(Nibble::new(16).is_none());
}

#[test]
fn equality_ignores_width() {
    assert_eq!(VarBitValue::new(BitSize::Bit3, 5), VarBitValue::new(BitSize::Bit9, 5));
    assert_ne!(VarBitValue::new(BitSize::Bit3, 5), VarBitValue::new(BitSize::Bit3, 4));
}

#[test]
fn reverse_in_place_and_wide_payload() {
    let mut v = VarBitValue::new(BitSize::Bit4, 0b0001);
    v.reverse();
    assert_eq!(v.value(), 0b1000);
    assert_eq!(v.size(), BitSize::Bit4);
    // bits above the width are dropped
    let w = VarBitValue::new(BitSize::Bit8, 0x1ff);
    assert_eq!(w.reversed().value(), 0xff);
    assert_eq!(w.reversed().reversed().value(), 0xff);
}

#[test]
fn reversed_twice_all_widths() {
    for width in [8u8, 16, 24] {
        let size = BitSize::new(width).unwrap();
        for payload in [0u32, 1, 0x5a, 0x80, 0x1234 & size.mask(), 0xabcdef & size.mask()] {
            let v = VarBitValue::new(size, payload);
            assert_eq!(v.reversed().reversed().value(), payload);
        }
    }
}

#[test]
fn count_bits_counts_set_bits() {
    assert_eq!(count_bits(&[]), 0);
    assert_eq!(count_bits(&[0xff, 0x01, 0x80, 0x00, 0x0f]), 14);
}

#[test]
fn total_bit_count_and_len() {
    let values = [
        Some(VarBitValue::new(BitSize::Bit3, 1)),
        None,
        Some(VarBitValue::new(BitSize::Bit8, 1)),
    ];
    assert_eq!(VarBitValue::total_bit_count(&values), 11);
    assert_eq!(VarBitValue::total_len(&values), 2);
    assert_eq!(VarBitValue::total_len(&[]), 0);
}

#[test]
fn to_text_renders_binary() {
    let v = VarBitValue::new(BitSize::Bit5, 0b00110);
    assert_eq!(v.to_text(0), "00110");
    assert_eq!(v.to_text(8), "   00110");
    assert_eq!(v.to_text(3), "00110");
    assert_eq!(VarBitValue::with_bool(true).to_text(1), "1");
}
