use lzbits::{BitSize, BitStreamReader, BitStreamWriter, Nibble, VarBitValue, Write};

#[test]
fn writer_byte_exact_scenario() {
    let mut w = BitStreamWriter::new();
    w.push_bool(true);
    w.push_byte(0xAB);
    w.push_nibble(Nibble::new(0x3).unwrap());
    assert_eq!(w.bit_count(), 13);
    let bytes = w.into_bytes();
    assert_eq!(bytes, vec![0x57, 0x07]);
}

#[test]
fn writer_spans_four_bytes() {
    let mut w = BitStreamWriter::new();
    w.push(VarBitValue::new(BitSize::Bit7, 0));
    w.push(VarBitValue::new(BitSize::Bit24, 0xABCDEF));
    assert_eq!(w.bit_count(), 31);
    assert_eq!(w.into_bytes(), vec![0x80, 0xF7, 0xE6, 0x55]);
}

#[test]
fn writer_masks_payload_to_width() {
    let mut w = BitStreamWriter::new();
    w.push(VarBitValue::new(BitSize::Bit4, 0xff));
    assert_eq!(w.into_bytes(), vec![0x0f]);
}

#[test]
fn writer_skip_to_boundary() {
    let mut w = BitStreamWriter::new();
    w.skip_to_next_byte_boundary();
    assert_eq!(w.bit_count(), 0);
    w.push_bool(true);
    w.skip_to_next_byte_boundary();
    assert_eq!(w.bit_count(), 8);
    w.push_byte(0x42);
    w.push_slice(&[VarBitValue::with_bool(true), VarBitValue::new(BitSize::Bit2, 2)]);
    assert_eq!(w.into_bytes(), vec![0x01, 0x42, 0x05]);
}

#[test]
fn to_vec_packs_values() {
    let values = vec![VarBitValue::with_bool(true), VarBitValue::with_byte(0xAB)];
    assert_eq!(VarBitValue::to_vec(&values), vec![0x57, 0x01]);
    assert_eq!(VarBitValue::into_vec(values), vec![0x57, 0x01]);
    assert_eq!(VarBitValue::to_vec(&[]), Vec::<u8>::new());
}

#[test]
fn round_trip_mixed_widths() {
    let items: Vec<(u8, u32)> = vec![(1, 1), (24, 0xABCDEF), (3, 5), (17, 0x1_2345), (8, 0x80), (5, 0)];
    let mut w = BitStreamWriter::new();
    for &(width, value) in &items {
        w.push(VarBitValue::new(BitSize::new(width).unwrap(), value));
    }
    let bytes = w.into_bytes();
    let mut r = BitStreamReader::new(&bytes);
    for &(width, value) in &items {
        assert_eq!(r.read_bits(BitSize::new(width).unwrap()), Some(value));
    }
}

#[test]
fn peek_is_repeatable() {
    let bytes = [0xA5u8, 0x3C];
    let mut r = BitStreamReader::new(&bytes);
    assert_eq!(r.read_bits(BitSize::Bit3), Some(0b101));
    for _ in 0..4 {
        assert_eq!(r.peek_bits(BitSize::Bit9), Some(0x194));
    }
    assert_eq!(r.read_bits(BitSize::Bit9), Some(0x194));
    assert_eq!(r.read_bits(BitSize::Bit4), Some(0x3));
    assert_eq!(r.peek_bits(BitSize::Bit1), None);
}

#[test]
fn advance_matches_read() {
    let bytes = [0x12u8, 0x34, 0x56, 0x78];
    for width in 1..=24u8 {
        let size = BitSize::new(width).unwrap();
        let mut a = BitStreamReader::new(&bytes);
        let mut b = BitStreamReader::new(&bytes);
        assert!(a.read_bits(size).is_some());
        assert_eq!(b.advance(size), Some(()));
        assert_eq!(a.read_bits(BitSize::Bit8), b.read_bits(BitSize::Bit8));
        assert_eq!(a.read_next_byte(), b.read_next_byte());
    }
}

#[test]
fn reads_fail_past_end() {
    let bytes = [0xFFu8];
    let mut r = BitStreamReader::new(&bytes);
    assert_eq!(r.read_bits(BitSize::Bit9), None);
    assert_eq!(r.advance(BitSize::Bit9), None);
    assert_eq!(r.read_byte(), Some(0xFF));
    assert_eq!(r.read_bool(), None);
    assert!(r.read_nibble().is_none());
    let empty: [u8; 0] = [];
    let mut e = BitStreamReader::new(&empty);
    assert_eq!(e.read_bool(), None);
    assert_eq!(e.read_next_byte(), None);
}

#[test]
fn read_bool_and_nibble() {
    let bytes = [0b1010_0110u8];
    let mut r = BitStreamReader::new(&bytes);
    assert_eq!(r.read_bool(), Some(false));
    assert_eq!(r.read_bool(), Some(true));
    assert_eq!(r.read_nibble().map(|n| n.as_u8()), Some(0b1001));
    assert_eq!(r.read_bits(BitSize::Bit2), Some(0b10));
}

#[test]
fn byte_aligned_reads() {
    let bytes = [0xFFu8, 0x11, 0x22, 0x33, 0x44, 0x55];
    let mut r = BitStreamReader::new(&bytes);
    assert_eq!(r.read_bits(BitSize::Bit3), Some(0b111));
    assert_eq!(r.read_next_byte(), Some(0x11));
    assert_eq!(r.read_next_bytes::<2>(), Some([0x22, 0x33]));
    assert_eq!(r.read_next_bytes::<3>(), None);
    assert_eq!(r.read_next_bytes_slice(2), Some(&[0x44u8, 0x55][..]));
    assert_eq!(r.read_next_bytes_slice(1), None);
    assert_eq!(r.read_next_bytes_slice(0), Some(&[][..]));
}

#[test]
fn slice_read_after_peek_keeps_order() {
    let bytes = [0x01u8, 0x02, 0x03, 0x04];
    let mut r = BitStreamReader::new(&bytes);
    assert_eq!(r.peek_bits(BitSize::Bit16), Some(0x0201));
    assert_eq!(r.read_next_bytes_slice(3), Some(&[0x01u8, 0x02, 0x03][..]));
    assert_eq!(r.read_byte(), Some(0x04));
}

#[test]
fn skip_to_boundary_drops_partial_byte() {
    let bytes = [0xFFu8, 0x5A];
    let mut r = BitStreamReader::new(&bytes);
    assert_eq!(r.read_bits(BitSize::Bit1), Some(1));
    r.skip_to_next_byte_boundary();
    assert_eq!(r.read_byte(), Some(0x5A));
}

#[test]
fn write_trait_matches_push() {
    let mut w = BitStreamWriter::new();
    w.write(true);
    w.write(0xABu8);
    w.write(Nibble::new(0x3).unwrap());
    w.write(&[0x01u8, 0x80][..]);
    w.write(VarBitValue::new(BitSize::Bit3, 0b101));
    w.write(&[VarBitValue::with_bool(false), VarBitValue::with_bool(true)][..]);
    let mut p = BitStreamWriter::new();
    p.push_bool(true);
    p.push_byte(0xAB);
    p.push_nibble(Nibble::new(0x3).unwrap());
    p.push_byte(0x01);
    p.push_byte(0x80);
    p.push(VarBitValue::new(BitSize::Bit3, 0b101));
    p.push_bool(false);
    p.push_bool(true);
    assert_eq!(w.bit_count(), 34);
    assert_eq!(w.into_bytes(), p.into_bytes());
}

#[test]
fn next_yields_bits_in_order() {
    let bytes = [0b0000_0101u8];
    let mut r = BitStreamReader::new(&bytes);
    let mut bits = Vec::new();
    while let Some(b) = r.next() {
        bits.push(b);
    }
    assert_eq!(bits, vec![true, false, true, false, false, false, false, false]);
}
