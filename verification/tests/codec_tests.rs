use handel::{decode_update, encode_update, BitSet, Contribution};

fn sample_contribution() -> Contribution {
    let mut bits = BitSet::new(12);
    bits.insert(0);
    bits.insert(3);
    bits.insert(8);
    bits.insert(11);
    Contribution::new(bits, vec![0xde, 0xad, 0xbe, 0xef])
}

#[test]
fn update_roundtrip_preserves_everything() {
    let c = sample_contribution();
    let bytes = encode_update(7, 2, &c);
    let (sender, level, back) = decode_update(&bytes).unwrap();
    assert_eq!(sender, 7);
    assert_eq!(level, 2);
    assert!(back == c);
}

#[test]
fn update_roundtrip_with_empty_payloads() {
    let c = Contribution::new(BitSet::new(0), Vec::new());
    let bytes = decode_update(&encode_update(0, 0, &c));
    let (sender, level, back) = bytes.unwrap();
    assert_eq!(sender, 0);
    assert_eq!(level, 0);
    assert!(back == c);
}

#[test]
fn wire_layout_is_little_endian_lsb_first() {
    // Committee index i sits at bit i % 8 of byte i / 8.
    let mut bits = BitSet::new(9);
    bits.insert(0);
    bits.insert(3);
    bits.insert(8);
    let c = Contribution::new(bits, vec![0x55]);
    let bytes = encode_update(0x0102, 5, &c);
    assert_eq!(
        bytes,
        vec![
            9, 0, // bit-set width, little endian
            0b0000_1001, 0b0000_0001, // packed bits, LSB first
            1, 0,    // signature length
            0x55, // signature
            5,    // level id
            0x02, 0x01, // sender index, little endian
        ]
    );
}

#[test]
fn truncated_bytes_are_rejected() {
    let c = sample_contribution();
    let mut bytes = encode_update(7, 2, &c);
    bytes.pop();
    assert!(decode_update(&bytes).is_none());
    assert!(decode_update(&vec![]).is_none());
    assert!(decode_update(&vec![9]).is_none());
    assert!(decode_update(&vec![255, 255, 0]).is_none());
}
