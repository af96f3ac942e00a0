use sudachi::dic::compact::{
    bits_needed, decode_vbyte, decode_zigzag, encode_vbyte, encode_zigzag, extract_bits, pack_bits,
};

#[test]
fn test_vbyte_roundtrip() {
    let cases = [0u32, 1, 127, 128, 16383, 16384, 0x0FFF_FFFF, u32::MAX];
    for &val in &cases {
        let mut buf = Vec::new();
        encode_vbyte(val, &mut buf);
        let (decoded, consumed) = decode_vbyte(&buf);
        assert_eq!(decoded, val, "VByte roundtrip failed for {}", val);
        assert_eq!(consumed, buf.len());
    }
}

#[test]
fn test_zigzag_roundtrip() {
    let cases = [0i32, -1, 1, -2, 2, i32::MIN, i32::MAX, -12345, 12345];
    for &val in &cases {
        let encoded = encode_zigzag(val);
        let decoded = decode_zigzag(encoded);
        assert_eq!(decoded, val, "ZigZag roundtrip failed for {}", val);
    }
}

#[test]
fn test_bits_roundtrip() {
    let mut data = vec![0u8; 16];
    pack_bits(&mut data, 0, 0b10110, 5);
    assert_eq!(extract_bits(&data, 0, 5), 0b10110);

    pack_bits(&mut data, 5, 0b111, 3);
    assert_eq!(extract_bits(&data, 5, 3), 0b111);

    // Cross-byte boundary
    let mut data2 = vec![0u8; 16];
    pack_bits(&mut data2, 6, 0xABCD, 16);
    assert_eq!(extract_bits(&data2, 6, 16), 0xABCD);
}

#[test]
fn test_bits_needed() {
    assert_eq!(bits_needed(0), 0);
    assert_eq!(bits_needed(1), 1);
    assert_eq!(bits_needed(2), 2);
    assert_eq!(bits_needed(3), 2);
    assert_eq!(bits_needed(255), 8);
    assert_eq!(bits_needed(256), 9);
    assert_eq!(bits_needed(u16::MAX), 16);
}

#[test]
fn vbyte_known_encodings() {
    let mut buf = Vec::new();
    encode_vbyte(0, &mut buf);
    assert_eq!(buf, vec![0x00]);
    let mut buf = Vec::new();
    encode_vbyte(300, &mut buf);
    assert_eq!(buf, vec![0xAC, 0x02]);
    let mut buf = vec![9u8];
    encode_vbyte(u32::MAX, &mut buf);
    assert_eq!(buf, vec![9, 0xFF, 0xFF, 0xFF, 0xFF, 0x0F]);
}

#[test]
fn vbyte_decode_stops_at_last_byte() {
    assert_eq!(decode_vbyte(&[0xAC, 0x02, 0x7F]), (300, 2));
    assert_eq!(decode_vbyte(&[]), (0, 0));
    // An unterminated number takes all the bytes.
    assert_eq!(decode_vbyte(&[0x81, 0x81]), (129, 2));
}

#[test]
fn zigzag_known_values() {
    assert_eq!(encode_zigzag(0), 0);
    assert_eq!(encode_zigzag(-1), 1);
    assert_eq!(encode_zigzag(1), 2);
    assert_eq!(encode_zigzag(-2), 3);
    assert_eq!(encode_zigzag(i32::MIN), u32::MAX);
    assert_eq!(decode_zigzag(4), 2);
    assert_eq!(decode_zigzag(u32::MAX), i32::MIN);
}

#[test]
fn bits_zero_width_and_neighbours() {
    let mut data = vec![0u8; 4];
    pack_bits(&mut data, 3, 0xFFFF, 0);
    assert_eq!(data, vec![0, 0, 0, 0]);
    assert_eq!(extract_bits(&data, 3, 0), 0);
    pack_bits(&mut data, 4, 0b1011, 4);
    assert_eq!(data[0], 0b1011_0000);
    assert_eq!(extract_bits(&data, 0, 4), 0);
    assert_eq!(extract_bits(&data, 4, 4), 0b1011);
}
