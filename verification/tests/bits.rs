use bachmodem::bits::encode_bits;
use bachmodem::bits::pack_bits;
use bachmodem::bits::reverse_bits;

#[test]
fn test_encode_bits() {
    let data = b"Hi";
    let bits = encode_bits(data);

    assert_eq!(bits.len(), 16);
    assert_eq!(&bits[0..8], &[0, 1, 0, 0, 1, 0, 0, 0]);
    assert_eq!(&bits[8..16], &[0, 1, 1, 0, 1, 0, 0, 1]);
}

#[test]
fn test_pack_bits_inverts_encode_bits() {
    let data: Vec<u8> = vec![0x00, 0xFF, 0xA5, 0x3C, 0x01, 0x80];
    let bits = encode_bits(&data);
    let packed = pack_bits(&bits);
    assert_eq!(packed, data);
}

#[test]
fn test_pack_bits_ragged_tail() {
    // Three leftover bits fill the high positions of the last byte.
    let bits: Vec<u8> = vec![1, 0, 1];
    let packed = pack_bits(&bits);
    assert_eq!(packed, vec![0b1010_0000]);
}

#[test]
fn test_pack_bits_empty() {
    let bits: Vec<u8> = Vec::new();
    assert_eq!(pack_bits(&bits), Vec::<u8>::new());
}

#[test]
fn test_reverse_bits_values() {
    assert_eq!(reverse_bits(0b0001, 4), 0b1000);
    assert_eq!(reverse_bits(0b1010, 4), 0b0101);
    assert_eq!(reverse_bits(0, 4), 0);
    assert_eq!(reverse_bits(0b110, 3), 0b011);
    // Bits beyond the counted width are dropped.
    assert_eq!(reverse_bits(0b10001, 4), 0b1000);
}
